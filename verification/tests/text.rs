use digicompass::text::{
    parse_hex, parse_signed, parse_unsigned, push_decimal, push_signed, reads_as_float, same_text,
    split, write_hex,
};

#[test]
fn numbers_are_told_from_other_text() {
    let parts = ["", "+", "-", "0", "12", ".", "e", "E", "1e5", "inf", "NaN", "Infinity", "x", "_", " "];
    for a in parts {
        for b in parts {
            for c in parts {
                let text = format!("{}{}{}", a, b, c);
                assert_eq!(reads_as_float(text.as_bytes()), text.parse::<f64>().is_ok(), "{:?}", text);
                assert_eq!(reads_as_float(text.as_bytes()), text.parse::<f32>().is_ok(), "{:?}", text);
            }
        }
    }
    for text in ["iNfInItY", "-nan", "infinit", "1.5e-300", "1e+", "\u{e4}", "1.2.3", "00.00"] {
        assert_eq!(reads_as_float(text.as_bytes()), text.parse::<f64>().is_ok(), "{:?}", text);
    }
}

#[test]
fn integers_are_read() {
    for text in ["", "+", "-", "0", "+7", "-7", "007", "255", "256", "65535", "65536", "99999999999", "1 ", "1x", "\u{661}"] {
        let small = text.parse::<u8>().ok().map(u32::from);
        assert_eq!(parse_unsigned(text.as_bytes(), 0xff), small, "{:?}", text);
        let large = text.parse::<u16>().ok().map(u32::from);
        assert_eq!(parse_unsigned(text.as_bytes(), 0xffff), large, "{:?}", text);
        assert_eq!(parse_signed(text.as_bytes()), text.parse::<i32>().ok(), "{:?}", text);
    }
    for text in ["2147483647", "2147483648", "-2147483648", "-2147483649", "+-1", "-0"] {
        assert_eq!(parse_signed(text.as_bytes()), text.parse::<i32>().ok(), "{:?}", text);
    }
}

#[test]
fn fields_are_parted() {
    assert_eq!(split(b"", b','), vec![b"".to_vec()]);
    assert_eq!(split(b"a,,b,", b','), vec![b"a".to_vec(), b"".to_vec(), b"b".to_vec(), b"".to_vec()]);
}

#[test]
fn hexadecimal_digits() {
    for b in 0..=255u8 {
        assert_eq!(parse_hex(b).map(u32::from), char::from(b).to_digit(16));
    }
    for n in 0..16u8 {
        assert_eq!(write_hex(n) as char, format!("{:X}", n).chars().next().unwrap());
    }
}

#[test]
fn integers_are_written() {
    for n in [0, 9, 10, 409, 1000, u32::MAX] {
        let mut out = "n=".to_string();
        push_decimal(&mut out, n);
        assert_eq!(out, format!("n={}", n));
    }
    for n in [0, -1, 42, i32::MAX, i32::MIN] {
        let mut out = String::new();
        push_signed(&mut out, n);
        assert_eq!(out, n.to_string());
    }
}

#[test]
fn texts_are_compared() {
    assert!(same_text("gr\u{fc}n", "gr\u{fc}n"));
    assert!(!same_text("a", "b"));
    assert!(!same_text("a", "ab"));
}
