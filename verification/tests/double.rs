use arbitraj::double::Double;
use arbitraj::wide::U256;

struct Random {
    state: u64,
}

impl Random {
    fn next(&mut self) -> u64 {
        self.state ^= self.state << 13;
        self.state ^= self.state >> 7;
        self.state ^= self.state << 17;
        self.state
    }

    /// A pattern that is often close to `near` in exponent, and sometimes special.
    fn pattern(&mut self, near: u64) -> u64 {
        let r = self.next();
        match r % 16 {
            0 => SPECIAL[(self.next() % SPECIAL.len() as u64) as usize],
            1..=3 => self.next(),
            4 | 5 => self.next() & 0x800f_ffff_ffff_ffff,
            6 | 7 => (self.next() & 0x801f_ffff_ffff_ffff) | 0x0010_0000_0000_0000,
            8 => near ^ 0x8000_0000_0000_0000,
            9 => near.wrapping_add(self.next() % 3),
            _ => {
                let exponent = ((near >> 52) & 0x7ff) as i64 + (self.next() % 160) as i64 - 80;
                let exponent = exponent.clamp(0, 2046) as u64;
                (self.next() & 0x800f_ffff_ffff_ffff) | (exponent << 52)
            }
        }
    }
}

const SPECIAL: [u64; 14] = [
    0,
    0x8000_0000_0000_0000,
    0x7ff0_0000_0000_0000,
    0xfff0_0000_0000_0000,
    0x7ff8_0000_0000_0000,
    0x7ff0_0000_0000_0001,
    1,
    0x8000_0000_0000_0001,
    0x000f_ffff_ffff_ffff,
    0x0010_0000_0000_0000,
    0x7fef_ffff_ffff_ffff,
    0xffef_ffff_ffff_ffff,
    0x3ff0_0000_0000_0000,
    0x4000_0000_0000_0000,
];

fn same(ours: Double, machine: f64) -> bool {
    if machine.is_nan() {
        ours.to_bits() == 0x7ff8_0000_0000_0000
    } else {
        ours.to_bits() == machine.to_bits()
    }
}

fn check_pair(a: u64, b: u64) {
    let (x, y) = (Double::from_bits(a), Double::from_bits(b));
    let (f, g) = (f64::from_bits(a), f64::from_bits(b));
    assert!(same(x.plus(y), f + g), "{:x} + {:x}", a, b);
    assert!(same(x.minus(y), f - g), "{:x} - {:x}", a, b);
    assert!(same(x.times(y), f * g), "{:x} * {:x}", a, b);
    assert!(same(x.over(y), f / g), "{:x} / {:x}", a, b);
    assert_eq!(x.lt(y), f < g);
    assert_eq!(x.le(y), f <= g);
    assert_eq!(x.gt(y), f > g);
    assert_eq!(x.check_zero(), f == 0.0);
    assert_eq!(x.check_nan(), f.is_nan());
    assert_eq!(x.abs().to_bits(), f.abs().to_bits());
    assert_eq!(x.negate().to_bits(), (-f).to_bits());
    assert_eq!(x.to_u128(), f as u128);
}

#[test]
fn arithmetic_agrees_with_the_machine() {
    let mut random = Random { state: 0x9e37_79b9_7f4a_7c15 };
    for _ in 0..60_000 {
        let near = random.next();
        let a = random.pattern(near);
        let b = random.pattern(a);
        check_pair(a, b);
    }
}

#[test]
fn special_values_agree_with_the_machine() {
    for a in SPECIAL {
        for b in SPECIAL {
            check_pair(a, b);
        }
    }
}

#[test]
fn ties_go_to_even() {
    // 2^53 + 1 lies halfway between 2^53 and 2^53 + 2.
    let big = Double::from_u128(1 << 53);
    let one = Double::from_u128(1);
    assert_eq!(big.plus(one).to_bits(), ((1u64 << 53) as f64).to_bits());
    let odd = big.plus(Double::from_u128(2));
    assert_eq!(odd.plus(one).to_bits(), (((1u64 << 53) + 4) as f64).to_bits());
}

#[test]
fn largest_and_smallest() {
    let one = Double::from_bits(1.0f64.to_bits());
    let two = Double::from_bits(2.0f64.to_bits());
    let nan = Double::from_bits(f64::NAN.to_bits());
    assert_eq!(one.max(two).to_bits(), two.to_bits());
    assert_eq!(two.max(one).to_bits(), two.to_bits());
    assert_eq!(one.min(two).to_bits(), one.to_bits());
    assert_eq!(two.min(one).to_bits(), one.to_bits());
    assert_eq!(nan.max(one).to_bits(), one.to_bits());
    assert_eq!(one.max(nan).to_bits(), one.to_bits());
    assert_eq!(nan.min(one).to_bits(), one.to_bits());
    assert_eq!(one.min(nan).to_bits(), one.to_bits());
    let three = Double::from_bits(3.0f64.to_bits());
    assert_eq!(three.clamp(one, two).to_bits(), two.to_bits());
    assert_eq!(one.clamp(two, three).to_bits(), two.to_bits());
    assert_eq!(two.clamp(one, three).to_bits(), two.to_bits());
    assert!(nan.clamp(one, three).check_nan());
}

#[test]
fn integers_round_to_nearest() {
    let mut random = Random { state: 77 };
    for _ in 0..20_000 {
        let wide = ((random.next() as u128) << 64) | random.next() as u128;
        let n = wide >> (random.next() % 128);
        assert_eq!(Double::from_u128(n).to_bits(), (n as f64).to_bits());
        assert_eq!(U256::from_u128(n).to_double().to_bits(), (n as f64).to_bits());
    }
    assert_eq!(Double::from_u128(u128::MAX).to_bits(), (u128::MAX as f64).to_bits());
    assert_eq!(Double::from_u128(0).to_bits(), 0);
}

#[test]
fn wide_integers_round_as_their_decimal_text() {
    let two_to_160: f64 = "1461501637330902918203684832716283019655932542976".parse().unwrap();
    let number = U256 { high: 1 << 32, low: 0 };
    assert_eq!(number.to_double().to_bits(), two_to_160.to_bits());
    let next: f64 = "1461501637330902918203684832716283019655932542977".parse().unwrap();
    let number = U256 { high: 1 << 32, low: 1 };
    assert_eq!(number.to_double().to_bits(), next.to_bits());
    let largest: f64 =
        "115792089237316195423570985008687907853269984665640564039457584007913129639935"
            .parse()
            .unwrap();
    let number = U256 { high: u128::MAX, low: u128::MAX };
    assert_eq!(number.to_double().to_bits(), largest.to_bits());
    // 2^200 + 2^147 lies halfway between two neighbours, 2^147 + 1 above does not.
    let tie = U256 { high: (1 << 72) + (1 << 19), low: 0 };
    assert_eq!(tie.to_double().to_bits(), 2.0f64.powi(200).to_bits());
    let above = U256 { high: (1 << 72) + (1 << 19), low: 1 };
    assert_eq!(above.to_double().to_bits(), 2.0f64.powi(200).to_bits() + 1);
}

#[test]
fn wide_integers_have_big_endian_bytes() {
    let number = U256 { high: 0x0102, low: 0xff00_0000_0000_0000_0000_0000_0000_0003 };
    let bytes = number.to_be_bytes();
    let mut expected = vec![0u8; 32];
    expected[14] = 1;
    expected[15] = 2;
    expected[16] = 0xff;
    expected[31] = 3;
    assert_eq!(bytes, expected);
    assert_eq!(U256::zero().to_be_bytes(), vec![0u8; 32]);
}

#[test]
fn operations_respect_the_order() {
    let mut random = Random { state: 0x0123_4567_89ab_cdef };
    for _ in 0..20_000 {
        let c = random.pattern(0x3ff0_0000_0000_0000);
        let x = random.pattern(c);
        let y = random.pattern(x);
        let z = Double::from_bits(c & 0x7fff_ffff_ffff_ffff);
        let low = Double::from_bits(x & 0x7fff_ffff_ffff_ffff);
        let high = Double::from_bits(y & 0x7fff_ffff_ffff_ffff);
        let (low, high) = if low.le(high) { (low, high) } else { (high, low) };
        if !low.le(high) {
            continue;
        }
        let both = |a: Double, b: Double| a.check_nan() || b.check_nan() || a.le(b);
        assert!(both(low.plus(z), high.plus(z)));
        assert!(both(z.minus(high), z.minus(low)));
        assert!(both(low.times(z), high.times(z)));
        assert!(both(low.over(z), high.over(z)));
        assert!(both(z.over(high), z.over(low)));
        assert!(both(low, low.plus(z)));
        assert_eq!(low.plus(z).to_bits(), z.plus(low).to_bits());
        assert_eq!(low.times(z).to_bits(), z.times(low).to_bits());
    }
}
