//! 256-bit unsigned integers, as contracts on the chain hold them.
use crate::double;
use crate::double::Double;
use vstd::arithmetic::div_mod::*;
use vstd::arithmetic::mul::*;
use vstd::arithmetic::power2::*;
use vstd::prelude::*;

verus! {

/// A 256-bit unsigned integer in two halves.
#[derive(Clone, Copy, Debug, PartialEq, Eq, Structural)]
pub struct U256 {
    pub high: u128,
    pub low: u128,
}

impl View for U256 {
    type V = nat;

    open spec fn view(&self) -> nat {
        self.high as nat * 0x1_0000_0000_0000_0000_0000_0000_0000_0000 + self.low as nat
    }
}

/// The number whose big-endian digits in base 256 are `bytes`.
pub open spec fn from_big_endian(bytes: Seq<u8>) -> nat
    decreases bytes.len(),
{
    if bytes.len() == 0 {
        0
    } else {
        from_big_endian(bytes.drop_last()) * 256 + bytes.last() as nat
    }
}

/// The lowest `count` digits of `n` in base 256, the highest first.
pub open spec fn big_endian(n: nat, count: nat) -> Seq<u8>
    decreases count,
{
    if count == 0 {
        seq![]
    } else {
        big_endian(n / 256, (count - 1) as nat).push((n % 256) as u8)
    }
}

/// The digits of the number that some digits stand for are those digits.
pub proof fn lemma_big_endian_of_bytes(bytes: Seq<u8>)
    ensures
        big_endian(from_big_endian(bytes), bytes.len()) == bytes,
    decreases bytes.len(),
{
    if bytes.len() > 0 {
        lemma_big_endian_of_bytes(bytes.drop_last());
        let high = from_big_endian(bytes.drop_last());
        let n = from_big_endian(bytes);
        assert(n / 256 == high && n % 256 == bytes.last() as nat);
    }
    assert(big_endian(from_big_endian(bytes), bytes.len()) =~= bytes);
}

/// The digits of a number that has room in them stand for the number.
pub proof fn law_big_endian_keeps_the_number(n: nat, count: nat)
    requires
        n < pow2(8 * count),
    ensures
        from_big_endian(big_endian(n, count)) == n,
        big_endian(n, count).len() == count,
    decreases count,
{
    lemma2_to64();
    if count > 0 {
        let rest = (count - 1) as nat;
        lemma_pow2_adds(8 * rest, 8);
        lemma_multiply_divide_lt(n as int, 256, pow2(8 * rest) as int);
        law_big_endian_keeps_the_number(n / 256, rest);
        assert(big_endian(n, count).drop_last() =~= big_endian(n / 256, rest));
    }
}

impl U256 {
    /// Zero.
    pub fn zero() -> (number: U256)
        ensures
            number@ == 0,
    {
        U256 { high: 0, low: 0 }
    }

    /// The number `low`.
    pub fn from_u128(low: u128) -> (number: U256)
        ensures
            number@ == low,
    {
        U256 { high: 0, low }
    }

    /// The nearest binary64 number.
    pub fn to_double(self) -> (number: Double)
        ensures
            number == double::of_nat(self@),
    {
        if self.high == 0 {
            return Double::from_u128(self.low);
        }
        proof {
            lemma2_to64();
            lemma2_to64_rest();
            lemma_pow2_adds(64, 2);
            lemma_pow2_adds(64, 64);
            lemma_pow2_adds(128, 2);
        }
        if self.high < 0x1_0000_0000_0000_0000 {
            let q: u128 = self.high * 0x4000_0000_0000_0000 + self.low / 0x4_0000_0000_0000_0000;
            let rest: u128 = self.low % 0x4_0000_0000_0000_0000;
            assert(q * pow2(66) + rest == self@);
            Double::from_wide(q, rest > 0, 66, Ghost(rest as nat))
        } else {
            let q: u128 = self.high / 4;
            let over: u128 = self.high % 4;
            assert(pow2(130) == 0x4_0000_0000_0000_0000_0000_0000_0000_0000);
            assert(self.high == 4 * q + over);
            assert(q * pow2(130) + over * 0x1_0000_0000_0000_0000_0000_0000_0000_0000 + self.low
                == self@);
            Double::from_wide(
                q,
                over > 0 || self.low > 0,
                130,
                Ghost((over * 0x1_0000_0000_0000_0000_0000_0000_0000_0000 + self.low) as nat),
            )
        }
    }

    /// The 32 big-endian bytes of the number.
    pub fn to_be_bytes(self) -> (bytes: Vec<u8>)
        ensures
            bytes@ == big_endian(self@, 32),
            bytes@.len() == 32,
            from_big_endian(bytes@) == self@,
    {
        let mut bytes: Vec<u8> = Vec::new();
        proof {
            lemma2_to64();
            lemma_pow2_adds(64, 64);
        }
        assert(pow2(128) == 0x1_0000_0000_0000_0000_0000_0000_0000_0000);
        assert(from_big_endian(bytes@) == 0);
        append_be_bytes(&mut bytes, self.high, 16);
        assert(from_big_endian(bytes@) == self.high) by {
            lemma_mul_basics(pow2(128) as int);
        }
        append_be_bytes(&mut bytes, self.low, 16);
        proof {
            lemma_big_endian_of_bytes(bytes@);
        }
        bytes
    }
}

/// Appends the `count` big-endian bytes of `rest`.
fn append_be_bytes(bytes: &mut Vec<u8>, rest: u128, count: u32)
    requires
        rest < pow2(8 * count as nat),
        count <= 16,
    ensures
        final(bytes)@.len() == old(bytes)@.len() + count,
        from_big_endian(final(bytes)@) == from_big_endian(old(bytes)@) * pow2(8 * count as nat)
            + rest,
    decreases count,
{
    proof {
        lemma2_to64();
    }
    if count == 0 {
        return;
    }
    let ghost before = from_big_endian(bytes@);
    let ghost p = pow2((8 * (count - 1)) as nat);
    proof {
        lemma_pow2_adds((8 * (count - 1)) as nat, 8);
        lemma_multiply_divide_lt(rest as int, 256, p as int);
    }
    append_be_bytes(bytes, rest / 256, count - 1);
    let ghost middle = bytes@;
    let digit: u8 = (rest % 256) as u8;
    bytes.push(digit);
    proof {
        assert(bytes@.drop_last() == middle);
        assert((before * p + rest / 256) * 256 + rest % 256 == before * (p * 256) + rest)
            by (nonlinear_arith)
            requires
                rest == 256 * (rest / 256) + rest % 256,
        ;
    }
}

/// A number is its high half times 2^128 and its low half.
pub proof fn law_halves_make_the_number(number: U256)
    ensures
        number@ == number.high * pow2(128) + number.low,
        number@ < pow2(256),
{
    lemma2_to64();
    lemma_pow2_adds(64, 64);
    lemma_pow2_adds(128, 128);
    let p = pow2(128);
    assert(number.high * p + number.low < p * p) by (nonlinear_arith)
        requires
            number.high + 1 <= p,
            number.low < p,
    ;
}

} // verus!
