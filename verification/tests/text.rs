use arbitraj::double::Double;
use arbitraj::text::{
    append_decimal, append_fixed, append_hexadecimal, append_two_digits, has_prefix,
    parse_unsigned, same,
};

fn fixed(x: f64, places: u32) -> String {
    let mut text = String::from("<");
    append_fixed(&mut text, Double::from_bits(x.to_bits()), places);
    text
}

fn check(x: f64) {
    for places in [0u32, 1, 2, 4, 9] {
        assert_eq!(fixed(x, places), format!("<{:.1$}", x, places as usize), "{:e}", x);
    }
}

#[test]
fn fixed_point_agrees_with_the_machine() {
    for x in [
        0.0, -0.0, 0.5, 1.5, 2.5, -2.5, 0.125, 0.375, 0.005, 0.015, 0.045, 1e-10, 5e-324, 1.0,
        9.995, 99.5, 100.5, 1e15, 1e22, 1e23, 1.7976931348623157e308, 4503599627370496.5,
        9007199254740993.0, f64::NAN, f64::INFINITY, f64::NEG_INFINITY, 0.1, 0.2, 0.3, 2000.455,
    ] {
        check(x);
        check(-x);
    }
    let mut state: u64 = 0x9e37_79b9_7f4a_7c15;
    for i in 0..3000u64 {
        state ^= state << 13;
        state ^= state >> 7;
        state ^= state << 17;
        let x = if i % 3 == 0 {
            f64::from_bits(state)
        } else {
            (state >> 20) as f64 / ((1u64 << (i % 40)) as f64)
        };
        if x.is_nan() {
            continue;
        }
        check(x);
    }
}

#[test]
fn decimals() {
    for n in [0u128, 1, 9, 10, 11, 99, 100, 12345678901234567890, u128::MAX] {
        let mut text = String::new();
        append_decimal(&mut text, n);
        assert_eq!(text, n.to_string());
        let mut text = String::new();
        append_two_digits(&mut text, n);
        assert_eq!(text, format!("{:02}", n));
    }
}

#[test]
fn hexadecimals() {
    let mut text = String::from("0x");
    append_hexadecimal(&mut text, &vec![0x00, 0x0f, 0xf0, 0xab, 0xff]);
    assert_eq!(text, "0x000ff0abff");
}

#[test]
fn numbers_are_read_as_the_machine_reads_them() {
    for text in [
        "", "+", "-", "0", "+0", "-0", "00", "007", "+42", "++1", " 1", "1 ", "12a", "255", "256",
        "4294967295", "4294967296", "18446744073709551615", "18446744073709551616", "٣",
        "340282366920938463463374607431768211455", "340282366920938463463374607431768211456",
        "999999999999999999999999999999999999999999", "1_000", "0x10",
    ] {
        assert_eq!(
            parse_unsigned(text, u8::MAX as u128),
            text.parse::<u8>().ok().map(|n| n as u128),
            "{}",
            text
        );
        assert_eq!(
            parse_unsigned(text, u32::MAX as u128),
            text.parse::<u32>().ok().map(|n| n as u128)
        );
        assert_eq!(
            parse_unsigned(text, u64::MAX as u128),
            text.parse::<u64>().ok().map(|n| n as u128)
        );
        assert_eq!(parse_unsigned(text, u128::MAX), text.parse::<u128>().ok());
    }
}

#[test]
fn comparisons() {
    assert!(same("", ""));
    assert!(same("Havuz A ✓", "Havuz A ✓"));
    assert!(!same("Havuz A", "Havuz B"));
    assert!(!same("Havuz", "Havuz A"));
    assert!(has_prefix("wss://your-node", "wss://your-"));
    assert!(has_prefix("wss://your-", "wss://your-"));
    assert!(has_prefix("x", ""));
    assert!(!has_prefix("wss://you", "wss://your-"));
    assert!(!has_prefix("xwss://your-", "wss://your-"));
    assert!(has_prefix("şş", "ş"));
}
