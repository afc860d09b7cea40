//! Numbers as text: decimal, fixed-point and hexadecimal digits, and decimal
//! integers read back.
use crate::accuracy;
use crate::double;
use crate::double::Double;
use crate::outside;
use crate::rounding;
use crate::rounding::{power_of_two, INFINITY_BITS};
use vstd::arithmetic::div_mod::*;
use vstd::arithmetic::mul::*;
use vstd::arithmetic::power2::*;
use vstd::prelude::*;
use vstd::string::*;

verus! {

/// The digits up to base 16.
pub open spec fn digit(d: nat) -> char {
    if d < 10 {
        (48 + d) as char
    } else {
        (87 + d) as char
    }
}

/// The decimal digits of `n`, without leading zeros.
pub open spec fn decimal(n: nat) -> Seq<char>
    decreases n,
{
    if n < 10 {
        seq![digit(n)]
    } else {
        decimal(n / 10).push(digit(n % 10))
    }
}

/// The last `places` decimal digits of `n`.
pub open spec fn last_digits(n: nat, places: nat) -> Seq<char>
    decreases places,
{
    if places == 0 {
        seq![]
    } else {
        last_digits(n / 10, (places - 1) as nat).push(digit(n % 10))
    }
}

/// The decimal digits of `n`, at least two.
pub open spec fn two_digits(n: nat) -> Seq<char> {
    if n < 10 {
        seq!['0'] + decimal(n)
    } else {
        decimal(n)
    }
}

/// `10^n`.
pub open spec fn pow10(n: nat) -> nat
    decreases n,
{
    if n == 0 {
        1
    } else {
        10 * pow10((n - 1) as nat)
    }
}

/// A number with `places` digits behind the decimal point, rounded half to
/// even.
pub open spec fn fixed(x: Double, places: nat) -> Seq<char> {
    let sign: Seq<char> = if x.negative() {
        seq!['-']
    } else {
        seq![]
    };
    if x.is_nan() {
        "NaN"@
    } else if x.is_infinite() {
        sign + "inf"@
    } else {
        let scaled = rounding::half_even(x.units() * pow10(places), pow2(1074));
        let whole = sign + decimal(scaled / pow10(places));
        if places == 0 {
            whole
        } else {
            whole + seq!['.'] + last_digits(scaled, places)
        }
    }
}

/// Two hexadecimal digits for each byte.
pub open spec fn hexadecimal(bytes: Seq<u8>) -> Seq<char>
    decreases bytes.len(),
{
    if bytes.len() == 0 {
        seq![]
    } else {
        hexadecimal(bytes.drop_last()).push(digit(bytes.last() as nat / 16)).push(
            digit(bytes.last() as nat % 16),
        )
    }
}

/// Appends one digit.
fn append_digit(text: &mut String, d: usize)
    requires
        d < 16,
    ensures
        final(text)@ == old(text)@.push(digit(d as nat)),
{
    let digits: &str = "0123456789abcdef";
    proof {
        reveal_strlit("0123456789abcdef");
    }
    assert(digits@[d as int] == digit(d as nat));
    assert(digits.is_ascii());
    text.append(digits.substring_ascii(d, d + 1));
    assert(text@ == old(text)@.push(digit(d as nat)));
}

/// Appends the decimal digits of `n`.
pub fn append_decimal(text: &mut String, n: u128)
    ensures
        final(text)@ == old(text)@ + decimal(n as nat),
    decreases n,
{
    if n >= 10 {
        append_decimal(text, n / 10);
    }
    append_digit(text, (n % 10) as usize);
    assert(text@ == old(text)@ + decimal(n as nat));
}

/// Appends the decimal digits of `n`, at least two.
pub fn append_two_digits(text: &mut String, n: u128)
    ensures
        final(text)@ == old(text)@ + two_digits(n as nat),
{
    if n < 10 {
        append_digit(text, 0);
    }
    append_decimal(text, n);
    assert(text@ == old(text)@ + two_digits(n as nat));
}

/// Appends the last `places` decimal digits of `n`.
fn append_last_digits(text: &mut String, n: u128, places: u32)
    ensures
        final(text)@ == old(text)@ + last_digits(n as nat, places as nat),
    decreases places,
{
    if places > 0 {
        append_last_digits(text, n / 10, places - 1);
        append_digit(text, (n % 10) as usize);
    }
    assert(text@ == old(text)@ + last_digits(n as nat, places as nat));
}

/// Appends two hexadecimal digits for each byte.
pub fn append_hexadecimal(text: &mut String, bytes: &Vec<u8>)
    ensures
        final(text)@ == old(text)@ + hexadecimal(bytes@),
{
    let ghost before = text@;
    let mut i: usize = 0;
    assert(text@ == before + hexadecimal(bytes@.take(0)));
    while i < bytes.len()
        invariant
            i <= bytes@.len(),
            text@ == before + hexadecimal(bytes@.take(i as int)),
        decreases bytes@.len() - i,
    {
        append_digit(text, (bytes[i] / 16) as usize);
        append_digit(text, (bytes[i] % 16) as usize);
        assert(bytes@.take(i + 1).drop_last() == bytes@.take(i as int));
        assert(text@ == before + hexadecimal(bytes@.take(i + 1)));
        i = i + 1;
    }
    assert(bytes@.take(i as int) == bytes@);
}

/// The number with the decimal digits `digits`, the lowest first.
spec fn digits_value(digits: Seq<u8>) -> nat
    decreases digits.len(),
{
    if digits.len() == 0 {
        0
    } else {
        digits[0] as nat + 10 * digits_value(digits.drop_first())
    }
}

/// Whether all digits are decimal ones.
spec fn are_digits(digits: Seq<u8>) -> bool {
    forall|i: int| 0 <= i < digits.len() ==> digits[i] < 10
}

/// A further, highest digit.
proof fn lemma_digits_push(digits: Seq<u8>, d: u8)
    ensures
        digits_value(digits.push(d)) == digits_value(digits) + d * pow10(digits.len()),
    decreases digits.len(),
{
    let all = digits.push(d);
    if digits.len() == 0 {
        assert(all.drop_first() == Seq::<u8>::empty());
        assert(digits_value(all.drop_first()) == 0);
        assert(pow10(digits.len()) == 1);
        lemma_mul_basics(d as int);
    } else {
        assert(all.drop_first() == digits.drop_first().push(d));
        lemma_digits_push(digits.drop_first(), d);
        let p = pow10((digits.len() - 1) as nat);
        assert(digits.drop_first().len() == digits.len() - 1);
        assert(all[0] == digits[0]);
        assert(10 * (d * p) == d * (10 * p)) by (nonlinear_arith);
    }
}

/// The decimal digits of a number, the highest first.
proof fn lemma_digits_decimal(digits: Seq<u8>)
    requires
        digits.len() > 0,
        are_digits(digits),
        digits.len() > 1 ==> digits.last() > 0,
    ensures
        decimal(digits_value(digits)) == Seq::new(
            digits.len(),
            |i: int| digit(digits[digits.len() - 1 - i] as nat),
        ),
        digits.last() > 0 ==> digits_value(digits) > 0,
    decreases digits.len(),
{
    let rest = digits.drop_first();
    let n = digits_value(digits);
    if digits.len() == 1 {
        assert(rest == Seq::<u8>::empty());
        assert(digits_value(rest) == 0);
    } else {
        assert(are_digits(rest)) by {
            assert forall|i: int| 0 <= i < rest.len() implies rest[i] < 10 by {
                assert(rest[i] == digits[i + 1]);
            }
        }
        lemma_digits_decimal(rest);
        assert(rest.last() == digits.last());
        assert(n / 10 == digits_value(rest) && n % 10 == digits[0] as nat);
        assert(n >= 10);
    }
    assert(decimal(n) =~= Seq::new(
        digits.len(),
        |i: int| digit(digits[digits.len() - 1 - i] as nat),
    ));
}

/// Doubles a number held by its decimal digits, the lowest first.
fn double_digits(digits: &Vec<u8>) -> (twice: Vec<u8>)
    requires
        digits@.len() > 0,
        digits@.len() < 0xffff_ffff,
        are_digits(digits@),
        digits@.last() > 0,
    ensures
        are_digits(twice@),
        twice@.len() > 0,
        twice@.len() <= digits@.len() + 1,
        twice@.last() > 0,
        digits_value(twice@) == 2 * digits_value(digits@),
{
    let mut twice: Vec<u8> = Vec::new();
    let mut carry: u8 = 0;
    let mut i: usize = 0;
    assert(digits@.take(0) == Seq::<u8>::empty());
    while i < digits.len()
        invariant
            i <= digits@.len(),
            digits@.len() > 0,
            twice@.len() == i,
            are_digits(digits@),
            are_digits(twice@),
            carry <= 1,
            digits_value(twice@) + carry * pow10(i as nat) == 2 * digits_value(
                digits@.take(i as int),
            ),
            i > 0 && digits@[i - 1] > 0 ==> carry > 0 || twice@[i - 1] > 0,
        decreases digits@.len() - i,
    {
        let d: u8 = 2 * digits[i] + carry;
        let low: u8 = d % 10;
        let next: u8 = d / 10;
        proof {
            let p = pow10(i as nat);
            lemma_digits_push(twice@, low);
            lemma_digits_push(digits@.take(i as int), digits@[i as int]);
            assert(digits@.take(i + 1) == digits@.take(i as int).push(digits@[i as int]));
            assert(low * p + next * (10 * p) == 2 * (digits@[i as int] * p) + carry * p)
                by (nonlinear_arith)
                requires
                    low + 10 * next == 2 * digits@[i as int] + carry,
            ;
        }
        twice.push(low);
        carry = next;
        i = i + 1;
    }
    assert(digits@.take(i as int) == digits@);
    if carry > 0 {
        proof {
            lemma_digits_push(twice@, carry);
        }
        twice.push(carry);
    }
    twice
}

/// Appends the decimal digits of `m * 2^shift`.
fn append_shifted(text: &mut String, m: u64, shift: u32)
    requires
        0 < m,
        shift <= 1000,
    ensures
        final(text)@ == old(text)@ + decimal((m * pow2(shift as nat)) as nat),
{
    let mut digits: Vec<u8> = Vec::new();
    let mut rest: u64 = m;
    proof {
        lemma2_to64();
        reveal_with_fuel(pow10, 21);
        assert(digits_value(digits@) == 0);
        assert(pow10(digits@.len()) == 1);
    }
    while rest > 0
        invariant
            digits@.len() <= 20,
            rest < pow10((20 - digits@.len()) as nat),
            are_digits(digits@),
            digits_value(digits@) + rest * pow10(digits@.len()) == m,
            rest == 0 ==> digits@.len() > 0 && digits@.last() > 0,
            0 < m,
        decreases rest,
    {
        let d: u8 = (rest % 10) as u8;
        proof {
            let p = pow10(digits@.len());
            lemma_digits_push(digits@, d);
            assert(rest * p == d * p + (rest / 10) * (10 * p)) by (nonlinear_arith)
                requires
                    rest == 10 * (rest / 10) + d,
            ;
        }
        digits.push(d);
        rest = rest / 10;
    }
    let mut i: u32 = 0;
    while i < shift
        invariant
            i <= shift <= 1000,
            digits@.len() > 0,
            digits@.len() <= 20 + i,
            are_digits(digits@),
            digits@.last() > 0,
            digits_value(digits@) == m * pow2(i as nat),
        decreases shift - i,
    {
        proof {
            lemma_pow2_unfold((i + 1) as nat);
            let p = pow2(i as nat);
            assert(2 * (m * p) == m * (2 * p)) by (nonlinear_arith);
        }
        digits = double_digits(&digits);
        i = i + 1;
    }
    let ghost before = text@;
    let ghost all = Seq::new(
        digits@.len(),
        |i: int| digit(digits@[digits@.len() - 1 - i] as nat),
    );
    let mut left: usize = digits.len();
    assert(text@ == before + all.take(0));
    while left > 0
        invariant
            left <= digits@.len(),
            are_digits(digits@),
            all == Seq::new(
                digits@.len(),
                |i: int| digit(digits@[digits@.len() - 1 - i] as nat),
            ),
            text@ == before + all.take(digits@.len() - left),
        decreases left,
    {
        left = left - 1;
        append_digit(text, digits[left] as usize);
        assert(text@ == before + all.take(digits@.len() - left));
    }
    proof {
        lemma_digits_decimal(digits@);
        assert(all.take(digits@.len() as int) == all);
    }
}

/// `10^n` as a machine integer.
fn power_of_ten(n: u32) -> (p: u128)
    requires
        n <= 9,
    ensures
        p == pow10(n as nat),
        0 < p <= 1_000_000_000,
    decreases n,
{
    proof {
        reveal_with_fuel(pow10, 10);
    }
    if n == 0 {
        1
    } else {
        10 * power_of_ten(n - 1)
    }
}

/// A multiple of `10^places` ends in zeros.
proof fn lemma_trailing_zeros(n: nat, places: nat)
    ensures
        last_digits(n * pow10(places), places) == last_digits(0, places),
    decreases places,
{
    if places > 0 {
        let p = pow10((places - 1) as nat);
        assert(n * pow10(places) == 10 * (n * p)) by (nonlinear_arith)
            requires
                pow10(places) == 10 * p,
        ;
        lemma_trailing_zeros(n, (places - 1) as nat);
    }
}

/// `10^n` is positive.
proof fn lemma_pow10_pos(n: nat)
    ensures
        pow10(n) > 0,
    decreases n,
{
    if n > 0 {
        lemma_pow10_pos((n - 1) as nat);
    }
}

/// Appends a number with `places` digits behind the decimal point.
pub fn append_fixed(text: &mut String, x: Double, places: u32)
    requires
        places <= 9,
    ensures
        final(text)@ == old(text)@ + fixed(x, places as nat),
{
    let ghost before = text@;
    if x.check_nan() {
        text.append("NaN");
        return;
    }
    if x.has_sign() {
        proof {
            reveal_strlit("-");
        }
        text.append("-");
    }
    let ghost sign: Seq<char> = if x.negative() {
        seq!['-']
    } else {
        seq![]
    };
    assert(text@ == before + sign);
    if x.unsigned() == INFINITY_BITS {
        text.append("inf");
        assert(text@ == before + fixed(x, places as nat));
        return;
    }
    let (m, k) = x.split();
    let p: u128 = power_of_ten(places);
    let ghost scaled = rounding::half_even(x.units() * pow10(places as nat), pow2(1074));
    let behind: u128;
    proof {
        lemma_pow2_pos(1074);
    }
    if k >= 1074 {
        let shift: u32 = k - 1074;
        append_shifted(text, m, shift);
        behind = 0;
        proof {
            let whole = (m * pow2(shift as nat)) as nat;
            lemma_pow2_adds(shift as nat, 1074);
            let ps = pow2(shift as nat);
            let pd = pow2(1074);
            assert((m * (ps * pd)) * p == (m * ps * p) * pd) by (nonlinear_arith);
            rounding::lemma_half_even_exact((whole * p) as nat, pd);
            assert(scaled == whole * p);
            lemma_div_by_multiple(whole as int, p as int);
            lemma_trailing_zeros(whole, places as nat);
        }
    } else {
        let t: u32 = 1074 - k;
        let n: u128 = {
            assert(m * p <= 0x20_0000_0000_0000 * 1_000_000_000) by (nonlinear_arith)
                requires
                    0 <= m <= 0x20_0000_0000_0000,
                    0 <= p <= 1_000_000_000,
            ;
            m as u128 * p
        };
        let ghost d = pow2(t as nat);
        proof {
            let c = pow2(k as nat);
            lemma_pow2_adds(t as nat, k as nat);
            lemma_pow2_pos(t as nat);
            lemma_pow2_pos(k as nat);
            assert((m * c) * p == (m * p) * c) by (nonlinear_arith);
            rounding::lemma_half_even_scaled(n as nat, d, c);
            assert(scaled == rounding::half_even(n as nat, d));
        }
        let rounded: u128 = if t > 100 {
            proof {
                lemma2_to64();
                lemma2_to64_rest();
                lemma_pow2_adds(64, 36);
                rounding::lemma_pow2_monotone(100, t as nat);
                lemma_basic_div(n as int, d as int);
                lemma_small_mod(n as nat, d);
            }
            0
        } else {
            proof {
                rounding::lemma_pow2_monotone(t as nat, 100);
                lemma2_to64();
                lemma2_to64_rest();
                lemma_pow2_adds(64, 36);
            }
            let whole: u128 = power_of_two(t);
            let quotient: u128 = n / whole;
            let twice: u128 = 2 * (n % whole);
            if twice < whole || (twice == whole && quotient % 2 == 0) {
                quotient
            } else {
                quotient + 1
            }
        };
        append_decimal(text, rounded / p);
        behind = rounded;
    }
    proof {
        lemma_pow10_pos(places as nat);
    }
    if places > 0 {
        proof {
            reveal_strlit(".");
        }
        text.append(".");
        append_last_digits(text, behind, places);
    }
    assert(text@ == before + fixed(x, places as nat));
}

/// Whether two texts are the same.
pub fn same(a: &str, b: &str) -> (answer: bool)
    ensures
        answer == (a@ == b@),
{
    let length: usize = a.unicode_len();
    if length != b.unicode_len() {
        return false;
    }
    let mut i: usize = 0;
    while i < length
        invariant
            i <= length,
            length == a@.len(),
            length == b@.len(),
            a@.take(i as int) == b@.take(i as int),
        decreases length - i,
    {
        if a.get_char(i) != b.get_char(i) {
            assert(a@[i as int] != b@[i as int]);
            return false;
        }
        assert(a@.take(i + 1) == a@.take(i as int).push(a@[i as int]));
        assert(b@.take(i + 1) == b@.take(i as int).push(b@[i as int]));
        i = i + 1;
    }
    assert(a@.take(length as int) == a@);
    assert(b@.take(length as int) == b@);
    true
}

/// Whether a text begins with another.
pub open spec fn begins_with(text: Seq<char>, prefix: Seq<char>) -> bool {
    prefix.len() <= text.len() && text.take(prefix.len() as int) == prefix
}

/// Whether a text begins with another.
pub fn has_prefix(text: &str, prefix: &str) -> (answer: bool)
    ensures
        answer == begins_with(text@, prefix@),
{
    let length: usize = prefix.unicode_len();
    if text.unicode_len() < length {
        return false;
    }
    same(text.substring_char(0, length), prefix)
}

/// Whether a character is a decimal digit.
pub open spec fn is_decimal(c: char) -> bool {
    '0' <= c <= '9'
}

/// The number that decimal digits stand for.
pub open spec fn decimal_value(digits: Seq<char>) -> nat
    decreases digits.len(),
{
    if digits.len() == 0 {
        0
    } else {
        10 * decimal_value(digits.drop_last()) + (digits.last() as nat - '0' as nat) as nat
    }
}

/// A text without one leading plus sign.
pub open spec fn unsigned_part(text: Seq<char>) -> Seq<char> {
    if text.len() > 0 && text[0] == '+' {
        text.drop_first()
    } else {
        text
    }
}

/// The number up to `max` that a text stands for: decimal digits, at least
/// one, with an optional plus sign before them.
pub open spec fn parsed(text: Seq<char>, max: nat) -> Option<nat> {
    let digits = unsigned_part(text);
    if digits.len() > 0 && (forall|i: int|
        0 <= i < digits.len() ==> is_decimal(#[trigger] digits[i])) && decimal_value(digits)
        <= max {
        Some(decimal_value(digits))
    } else {
        None
    }
}

/// More digits make no smaller number.
proof fn lemma_decimal_value_grows(digits: Seq<char>, i: int)
    requires
        0 <= i <= digits.len(),
    ensures
        decimal_value(digits.take(i)) <= decimal_value(digits),
    decreases digits.len(),
{
    if i == digits.len() {
        assert(digits.take(i) == digits);
    } else {
        assert(digits.drop_last().take(i) == digits.take(i));
        lemma_decimal_value_grows(digits.drop_last(), i);
    }
}

/// Reads a number up to `max`.
pub fn parse_unsigned(text: &str, max: u128) -> (number: Option<u128>)
    ensures
        match number {
            Some(n) => parsed(text@, max as nat) == Some(n as nat),
            None => parsed(text@, max as nat) is None,
        },
{
    let length: usize = text.unicode_len();
    let mut start: usize = 0;
    if length > 0 && text.get_char(0) == '+' {
        start = 1;
    }
    let ghost digits = unsigned_part(text@);
    assert(digits == text@.skip(start as int));
    if start == length {
        return None;
    }
    let mut n: u128 = 0;
    let mut i: usize = start;
    while i < length
        invariant
            start <= i <= length,
            start < length,
            length == text@.len(),
            digits == text@.skip(start as int),
            digits == unsigned_part(text@),
            forall|j: int| 0 <= j < i - start ==> is_decimal(#[trigger] digits[j]),
            n == decimal_value(digits.take(i - start)),
            n <= max,
        decreases length - i,
    {
        let c: char = text.get_char(i);
        assert(c == digits[i - start]);
        if c < '0' || c > '9' {
            assert(!is_decimal(digits[i - start]));
            return None;
        }
        let d: u128 = (c as u32 - '0' as u32) as u128;
        proof {
            assert(digits.take(i - start + 1).drop_last() == digits.take(i - start));
            assert(decimal_value(digits.take(i - start + 1)) == 10 * n + d);
            lemma_decimal_value_grows(digits, i - start + 1);
        }
        if d > max || n > (max - d) / 10 {
            return None;
        }
        n = 10 * n + d;
        i = i + 1;
    }
    assert(digits.take(length - start) == digits);
    Some(n)
}

/// Whether all characters are decimal digits.
pub open spec fn all_decimal(digits: Seq<char>) -> bool {
    forall|i: int| 0 <= i < digits.len() ==> is_decimal(#[trigger] digits[i])
}

/// Digits before others count for as many powers of ten as there are others.
pub proof fn law_digits_count_by_their_place(high: Seq<char>, low: Seq<char>)
    ensures
        decimal_value(high + low) == decimal_value(high) * pow10(low.len()) + decimal_value(low),
    decreases low.len(),
{
    if low.len() == 0 {
        assert(high + low == high);
        lemma_mul_basics(decimal_value(high) as int);
    } else {
        let rest = low.drop_last();
        assert((high + low).drop_last() == high + rest);
        assert((high + low).last() == low.last());
        law_digits_count_by_their_place(high, rest);
        let (h, p) = (decimal_value(high), pow10(rest.len()));
        assert(10 * (h * p) == h * (10 * p)) by (nonlinear_arith);
    }
}

/// A digit is the number that it shows.
proof fn lemma_digit(d: nat)
    requires
        d < 10,
    ensures
        is_decimal(digit(d)),
        digit(d) as nat - '0' as nat == d,
{
}

/// The decimal digits of a number stand for it, and begin with no zero that is
/// not needed.
pub proof fn law_decimal_reads_back(n: nat)
    ensures
        decimal_value(decimal(n)) == n,
        all_decimal(decimal(n)),
        decimal(n).len() >= 1,
        decimal(n).len() > 1 ==> decimal(n)[0] != '0',
    decreases n,
{
    let t = decimal(n);
    lemma_digit(n % 10);
    if n < 10 {
        assert(t.drop_last() == Seq::<char>::empty());
        assert(decimal_value(t.drop_last()) == 0);
    } else {
        let rest = decimal(n / 10);
        law_decimal_reads_back(n / 10);
        assert(t.drop_last() == rest);
        assert(t[0] == rest[0]);
        if rest.len() == 1 {
            if n / 10 >= 10 {
                law_decimal_reads_back(n / 10 / 10);
                assert(rest.len() >= 2);
            }
            lemma_digit(n / 10);
            assert(rest == seq![digit(n / 10)]);
        }
        assert forall|i: int| 0 <= i < t.len() implies is_decimal(#[trigger] t[i]) by {
            if i < rest.len() {
                assert(t[i] == rest[i]);
            }
        }
    }
}

/// The digits of two numbers differ where the numbers do.
pub proof fn law_decimal_tells_the_number(a: nat, b: nat)
    requires
        decimal(a) == decimal(b),
    ensures
        a == b,
{
    law_decimal_reads_back(a);
    law_decimal_reads_back(b);
}

/// A number is read back from its digits, with or without a plus sign, exactly
/// where it does not exceed the limit.
pub proof fn law_digits_are_parsed(n: nat, max: nat)
    ensures
        n <= max ==> parsed(decimal(n), max) == Some(n),
        n <= max ==> parsed(seq!['+'] + decimal(n), max) == Some(n),
        n > max ==> parsed(decimal(n), max) is None,
{
    let t = decimal(n);
    law_decimal_reads_back(n);
    assert(is_decimal(t[0]));
    assert(unsigned_part(t) == t);
    assert((seq!['+'] + t).drop_first() == t);
    assert(unsigned_part(seq!['+'] + t) == t);
}

/// A text of digits, with zeros before them or without, is parsed as the number
/// that the digits stand for, exactly where it does not exceed the limit.
pub proof fn law_all_digits_are_parsed(digits: Seq<char>, max: nat)
    requires
        digits.len() > 0,
        all_decimal(digits),
    ensures
        decimal_value(digits) <= max ==> parsed(digits, max) == Some(decimal_value(digits)),
        decimal_value(digits) > max ==> parsed(digits, max) is None,
        parsed(seq!['+'] + digits, max) == parsed(digits, max),
        decimal_value(seq!['0'] + digits) == decimal_value(digits),
{
    assert(is_decimal(digits[0]));
    assert((seq!['+'] + digits).drop_first() == digits);
    law_digits_count_by_their_place(seq!['0'], digits);
    assert(seq!['0'].drop_last() == Seq::<char>::empty());
    assert(decimal_value(seq!['0'].drop_last()) == 0);
    assert(decimal_value(seq!['0']) == 0);
    lemma_mul_basics(pow10(digits.len()) as int);
}

/// A text that is empty, is a plus sign alone, or holds a character behind its
/// first one that is no digit, stands for no number; nor does one that begins
/// with anything but a digit or a plus sign.
pub proof fn law_other_texts_are_not_parsed(text: Seq<char>, max: nat, i: int)
    requires
        0 <= i < text.len() ==> !is_decimal(text[i]) && (i == 0 ==> text[0] != '+'),
        i < 0 || i >= text.len() ==> text.len() == 0 || text == seq!['+'],
    ensures
        parsed(text, max) is None,
{
    let digits = unsigned_part(text);
    if 0 <= i < text.len() {
        if text[0] == '+' {
            assert(digits[i - 1] == text[i]);
        } else {
            assert(digits[i] == text[i]);
        }
    }
}

/// At least two digits stand for the number, and for no other.
pub proof fn law_two_digits_read_back(n: nat)
    ensures
        decimal_value(two_digits(n)) == n,
        all_decimal(two_digits(n)),
        two_digits(n).len() >= 2,
        n < 100 ==> two_digits(n).len() == 2,
{
    law_decimal_reads_back(n);
    if n < 10 {
        law_digits_count_by_their_place(seq!['0'], decimal(n));
        assert(seq!['0'].drop_last() == Seq::<char>::empty());
        assert(decimal_value(seq!['0'].drop_last()) == 0);
        assert(decimal_value(seq!['0']) == 0);
    } else {
        law_decimal_reads_back(n / 10);
        assert(decimal(n) == decimal(n / 10).push(digit(n % 10)));
    }
}

/// The last digits of a number stand for what is left of it.
proof fn lemma_last_digits(n: nat, places: nat)
    ensures
        last_digits(n, places).len() == places,
        all_decimal(last_digits(n, places)),
        decimal_value(last_digits(n, places)) == n % pow10(places),
    decreases places,
{
    let t = last_digits(n, places);
    if places > 0 {
        let rest = (places - 1) as nat;
        let before = last_digits(n / 10, rest);
        lemma_last_digits(n / 10, rest);
        lemma_digit(n % 10);
        lemma_pow10_pos(rest);
        assert(t.drop_last() == before);
        lemma_mod_breakdown(n as int, 10, pow10(rest) as int);
        assert forall|i: int| 0 <= i < t.len() implies is_decimal(#[trigger] t[i]) by {
            if i < before.len() {
                assert(t[i] == before[i]);
            }
        }
    }
}

/// The digits of a text, without the point before the last `places` of them.
pub open spec fn without_point(text: Seq<char>, places: nat) -> Seq<char> {
    if places == 0 {
        text
    } else {
        text.take(text.len() - places - 1) + text.skip(text.len() - places)
    }
}

/// A number with some digits behind the point is the one of its kind that is
/// nearest to it: its digits, read without the point, are off from the number
/// times that power of ten by no more than a half.
pub proof fn law_fixed_is_nearest(x: Double, places: nat)
    requires
        x.is_finite(),
        !x.negative(),
    ensures
        ({
            let t = fixed(x, places);
            let digits = without_point(t, places);
            let n = decimal_value(digits);
            &&& places > 0 ==> t.len() >= places + 2 && t[t.len() - places - 1] == '.'
            &&& places > 0 && t.len() > places + 2 ==> t[0] != '0'
            &&& places == 0 && t.len() > 1 ==> t[0] != '0'
            &&& all_decimal(digits)
            &&& 2 * (n * pow2(1074) - x.units() * pow10(places)) <= pow2(1074)
            &&& 2 * (x.units() * pow10(places) - n * pow2(1074)) <= pow2(1074)
        }),
{
    let d = pow2(1074);
    let p = pow10(places);
    let t = fixed(x, places);
    lemma_pow2_pos(1074);
    lemma_pow10_pos(places);
    let scaled = rounding::half_even(x.units() * p, d);
    accuracy::lemma_half_even_error(x.units() * p, d);
    let whole = decimal(scaled / p);
    law_decimal_reads_back(scaled / p);
    lemma_fundamental_div_mod(scaled as int, p as int);
    lemma_mul_is_commutative(p as int, (scaled / p) as int);
    if places == 0 {
        assert(t =~= whole);
        assert(p == 1);
        lemma_div_basics(scaled as int);
    } else {
        let last = last_digits(scaled, places);
        lemma_last_digits(scaled, places);
        assert(t =~= whole + seq!['.'] + last);
        assert(without_point(t, places) =~= whole + last);
        law_digits_count_by_their_place(whole, last);
        let digits = whole + last;
        assert forall|i: int| 0 <= i < digits.len() implies is_decimal(#[trigger] digits[i]) by {
            if i < whole.len() {
                assert(digits[i] == whole[i]);
            } else {
                assert(digits[i] == last[i - whole.len()]);
            }
        }
    }
}

/// What is not a number, and infinity, are shown as such.
pub proof fn law_fixed_shows_what_is_no_number(x: Double, places: nat)
    ensures
        x.is_nan() ==> fixed(x, places) == "NaN"@,
        x.is_infinite() && !x.negative() ==> fixed(x, places) == "inf"@,
{
    if x.is_infinite() && !x.negative() {
        assert(fixed(x, places) =~= "inf"@);
    }
}

/// A number below zero is shown as a minus sign and its absolute value.
pub proof fn law_fixed_shows_the_sign(x: Double, places: nat)
    requires
        x.negative(),
        !x.is_nan(),
    ensures
        fixed(x, places) == seq!['-'] + fixed(double::absolute(x), places),
{
    let y = double::absolute(x);
    assert(y.magnitude() == x.magnitude());
    assert(y.units() == x.units());
    assert(fixed(x, places) =~= seq!['-'] + fixed(y, places));
}

/// The digits of each byte.
proof fn lemma_hexadecimal(bytes: Seq<u8>)
    ensures
        hexadecimal(bytes).len() == 2 * bytes.len(),
        forall|i: int|
            #![trigger bytes[i]]
            0 <= i < bytes.len() ==> hexadecimal(bytes)[2 * i] == digit(bytes[i] as nat / 16)
                && hexadecimal(bytes)[2 * i + 1] == digit(bytes[i] as nat % 16),
    decreases bytes.len(),
{
    if bytes.len() > 0 {
        let rest = bytes.drop_last();
        lemma_hexadecimal(rest);
        let t = hexadecimal(bytes);
        assert forall|i: int| #![trigger bytes[i]] 0 <= i < bytes.len() implies t[2 * i] == digit(
            bytes[i] as nat / 16,
        ) && t[2 * i + 1] == digit(bytes[i] as nat % 16) by {
            if i < rest.len() {
                assert(rest[i] == bytes[i]);
            }
        }
    }
}

/// Bytes are read back from their hexadecimal digits.
pub proof fn law_hexadecimal_reads_back(bytes: Seq<u8>)
    ensures
        hexadecimal(bytes).len() == 2 * bytes.len(),
        outside::is_hex(hexadecimal(bytes), bytes.len()),
        outside::hex_bytes(hexadecimal(bytes), bytes.len()) == bytes,
        forall|i: int|
            0 <= i < hexadecimal(bytes).len() ==> !('A' <= #[trigger] hexadecimal(bytes)[i] <= 'F'),
{
    let t = hexadecimal(bytes);
    lemma_hexadecimal(bytes);
    assert forall|i: int| 0 <= i < t.len() implies outside::hex_value(#[trigger] t[i]) is Some && !(
    'A' <= t[i] <= 'F') by {
        let byte = bytes[i / 2] as nat;
        if i % 2 == 0 {
            assert(t[2 * (i / 2)] == digit(byte / 16));
        } else {
            assert(t[2 * (i / 2) + 1] == digit(byte % 16));
        }
    }
    if t.len() >= 2 {
        assert(outside::hex_value(t[1]) is Some);
    }
    assert(outside::without_prefix(t) == t);
    assert forall|i: int| 0 <= i < bytes.len() implies #[trigger] outside::hex_bytes(
        t,
        bytes.len(),
    )[i] == bytes[i] by {
        let byte = bytes[i] as nat;
        assert(outside::hex_value(digit(byte / 16)) == Some(byte / 16));
        assert(outside::hex_value(digit(byte % 16)) == Some(byte % 16));
    }
    assert(outside::hex_bytes(t, bytes.len()) =~= bytes);
}

} // verus!
