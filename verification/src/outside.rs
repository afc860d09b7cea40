//! The calls into the crates that parse addresses and keys, and into the
//! parts of the standard library that have no contract of their own.
use crate::types::Address;
use alloy::signers::local::PrivateKeySigner;
use vstd::prelude::*;

verus! {

/// The value of a hexadecimal digit of either case.
pub open spec fn hex_value(c: char) -> Option<nat> {
    if '0' <= c <= '9' {
        Some((c as nat - '0' as nat) as nat)
    } else if 'a' <= c <= 'f' {
        Some((c as nat - 'a' as nat + 10) as nat)
    } else if 'A' <= c <= 'F' {
        Some((c as nat - 'A' as nat + 10) as nat)
    } else {
        None
    }
}

/// A text without the prefix `0x` or `0X`.
pub open spec fn without_prefix(text: Seq<char>) -> Seq<char> {
    if text.len() >= 2 && text[0] == '0' && (text[1] == 'x' || text[1] == 'X') {
        text.skip(2)
    } else {
        text
    }
}

/// Whether a text is the hexadecimal form of `length` bytes.
pub open spec fn is_hex(text: Seq<char>, length: nat) -> bool {
    let digits = without_prefix(text);
    digits.len() == 2 * length && (forall|i: int|
        0 <= i < digits.len() ==> hex_value(#[trigger] digits[i]) is Some)
}

/// The `length` bytes that a hexadecimal text stands for.
pub open spec fn hex_bytes(text: Seq<char>, length: nat) -> Seq<u8> {
    let digits = without_prefix(text);
    Seq::new(
        length,
        |i: int|
            (16 * hex_value(digits[2 * i]).unwrap() + hex_value(digits[2 * i + 1]).unwrap()) as u8,
    )
}

/// What alloy says of a text that is no address.
pub uninterp spec fn address_error(text: Seq<char>) -> Seq<char>;

/// Parses an address with the `FromStr` of `alloy::primitives::Address`.
///
/// It accepts exactly 40 hexadecimal digits of either case, with or without
/// the prefix `0x` or `0X`, and yields the bytes that they stand for. The
/// message for any other text is a function of the text.
#[verifier::external_body]
pub(crate) fn parse_address(text: &str) -> (result: Result<Address, String>)
    ensures
        match result {
            Ok(address) => is_hex(text@, 20) && address@ == hex_bytes(text@, 20),
            Err(message) => !is_hex(text@, 20) && message@ == address_error(text@),
        },
{
    match text.parse::<alloy::primitives::Address>() {
        Ok(address) => Ok(address.into_array()),
        Err(error) => Err(error.to_string()),
    }
}

/// The address of the account that a private key belongs to; none where the
/// text is no private key.
pub uninterp spec fn key_account(key: Seq<char>) -> Option<Seq<u8>>;

/// Derives an account address with the `FromStr` of
/// `alloy::signers::local::PrivateKeySigner` and its method `address`.
///
/// The outcome is a function of the text. A text other than 64 hexadecimal
/// digits, with or without the prefix `0x` or `0X`, is no private key.
#[verifier::external_body]
pub(crate) fn account_of_key(key: &str) -> (address: Option<Address>)
    ensures
        match address {
            Some(bytes) => key_account(key@) == Some(bytes@),
            None => key_account(key@) is None,
        },
        !is_hex(key@, 32) ==> address is None,
{
    match key.parse::<PrivateKeySigner>() {
        Ok(signer) => Some(signer.address().into_array()),
        Err(_) => None,
    }
}

/// Whether all characters are ASCII.
pub open spec fn all_ascii(text: Seq<char>) -> bool {
    forall|i: int| 0 <= i < text.len() ==> (#[trigger] text[i] as nat) < 128
}

/// An ASCII text with its capital letters made small.
pub open spec fn ascii_lowercase(text: Seq<char>) -> Seq<char> {
    text.map_values(
        |c: char|
            if 'A' <= c <= 'Z' {
                (c as nat + 32) as char
            } else {
                c
            },
    )
}

/// The lowercase form of a text.
pub uninterp spec fn lowercase(text: Seq<char>) -> Seq<char>;

/// Lowers a text with `str::to_lowercase` of the standard library.
///
/// The outcome is a function of the text. On ASCII text it makes the capital
/// letters small and keeps every other character.
#[verifier::external_body]
pub(crate) fn to_lowercase(text: &str) -> (lower: String)
    ensures
        lower@ == lowercase(text@),
        all_ascii(text@) ==> lower@ == ascii_lowercase(text@),
{
    text.to_lowercase()
}

} // verus!
