//! Big integer and decimal literals and their magnitudes.
use protowire::pxf::bignum::{
    be_bytes_to_decimal, check_literal_digits, decimal_digits_to_be_bytes, format_big_int,
    format_decimal, parse_big_int, parse_decimal, BigIntLit, DecimalLit,
};


#[test]
fn digits_to_bytes_known_values() {
    assert_eq!(decimal_digits_to_be_bytes(b"0"), Vec::<u8>::new());
    assert_eq!(decimal_digits_to_be_bytes(b"000"), Vec::<u8>::new());
    assert_eq!(decimal_digits_to_be_bytes(b"1"), vec![1]);
    assert_eq!(decimal_digits_to_be_bytes(b"255"), vec![0xff]);
    assert_eq!(decimal_digits_to_be_bytes(b"256"), vec![1, 0]);
    assert_eq!(decimal_digits_to_be_bytes(b"007"), vec![7]);
    assert_eq!(decimal_digits_to_be_bytes(b"65536"), vec![1, 0, 0]);
    // 2^256 - 1
    assert_eq!(
        decimal_digits_to_be_bytes(
            b"115792089237316195423570985008687907853269984665640564039457584007913129639935"
        ),
        vec![0xff; 32]
    );
    // 2^96 - 1
    assert_eq!(
        decimal_digits_to_be_bytes(b"79228162514264337593543950335"),
        vec![0xff; 12]
    );
}

#[test]
fn bytes_to_digits_known_values() {
    assert_eq!(be_bytes_to_decimal(&[]), "0");
    assert_eq!(be_bytes_to_decimal(&[0, 0]), "0");
    assert_eq!(be_bytes_to_decimal(&[1]), "1");
    assert_eq!(be_bytes_to_decimal(&[0xff]), "255");
    assert_eq!(be_bytes_to_decimal(&[1, 0]), "256");
    assert_eq!(be_bytes_to_decimal(&[0, 7]), "7");
    assert_eq!(
        be_bytes_to_decimal(&[0xff; 32]),
        "115792089237316195423570985008687907853269984665640564039457584007913129639935"
    );
}

#[test]
fn conversions_round_trip_a_4096_digit_literal() {
    let s: String = (0..4096)
        .map(|i| char::from(b'1' + (i % 9) as u8))
        .collect();
    let bytes = decimal_digits_to_be_bytes(s.as_bytes());
    assert_eq!(be_bytes_to_decimal(&bytes), s);
}

#[test]
fn big_int_literals() {
    assert_eq!(
        parse_big_int("42", 4096).unwrap(),
        BigIntLit {
            abs: vec![42],
            negative: false
        }
    );
    assert_eq!(
        parse_big_int("-42", 4096).unwrap(),
        BigIntLit {
            abs: vec![42],
            negative: true
        }
    );
    // Zero is never negative.
    assert_eq!(
        parse_big_int("-0", 4096).unwrap(),
        BigIntLit {
            abs: vec![],
            negative: false
        }
    );
    assert_eq!(
        parse_big_int("1.5", 4096).unwrap_err(),
        "invalid big integer: 1.5"
    );
    assert_eq!(
        parse_big_int("-", 4096).unwrap_err(),
        "invalid big integer: -"
    );
    assert_eq!(
        parse_big_int("", 4096).unwrap_err(),
        "invalid big integer: "
    );
    assert_eq!(format_big_int(&[42], true), "-42");
    assert_eq!(format_big_int(&[], true), "0");
}

#[test]
fn decimal_literals() {
    assert_eq!(
        parse_decimal("1.00", 4096).unwrap(),
        DecimalLit {
            unscaled: vec![100],
            scale: 2,
            negative: false
        }
    );
    assert_eq!(
        parse_decimal("-123.45", 4096).unwrap(),
        DecimalLit {
            unscaled: vec![0x30, 0x39],
            scale: 2,
            negative: true
        }
    );
    assert_eq!(
        parse_decimal("42", 4096).unwrap(),
        DecimalLit {
            unscaled: vec![42],
            scale: 0,
            negative: false
        }
    );
    // "1." is a float token; it is a decimal with scale 0.
    assert_eq!(parse_decimal("1.", 4096).unwrap().scale, 0);
    // The sign is read from the text, zero or not.
    let z = parse_decimal("-0.0", 4096).unwrap();
    assert_eq!((z.unscaled, z.scale, z.negative), (vec![], 1, true));
    assert_eq!(
        parse_decimal("1e5", 4096).unwrap_err(),
        "invalid decimal: 1e5"
    );
    assert_eq!(
        parse_decimal("1.5.2", 4096).unwrap_err(),
        "invalid decimal: 1.5.2"
    );
    assert_eq!(format_decimal(&[5], 2, false), "0.05");
    assert_eq!(format_decimal(&[100], 2, false), "1.00");
    assert_eq!(format_decimal(&[0x30, 0x39], 2, true), "-123.45");
    assert_eq!(format_decimal(&[42], 0, false), "42");
    assert_eq!(format_decimal(&[5], -2, false), "500");
    assert_eq!(format_decimal(&[], 1, true), "-0.0");
}

#[test]
fn digit_cap_is_inclusive_and_counts_digits_only() {
    let at = "9".repeat(4096);
    assert!(check_literal_digits(&at, 4096).is_ok());
    assert!(check_literal_digits(&format!("-{}", at), 4096).is_ok());
    assert!(check_literal_digits(&format!("1.{}", &at[1..]), 4096).is_ok());
    let over = "9".repeat(4097);
    assert_eq!(
        check_literal_digits(&over, 4096).unwrap_err(),
        "numeric literal has 4097 digits; MaxNumericLiteralDigits=4096"
    );
    assert!(parse_big_int(&over, 4096).is_err());
    assert!(parse_decimal(&format!("{}.5", at), 4096).is_err());
    // The cap is per call.
    assert!(parse_big_int("12345", 4).is_err());
    assert!(parse_big_int("1234", 4).is_ok());
}

#[test]
fn canonical_decimal_text_round_trips() {
    for s in ["1.00", "0.05", "-123.45", "42", "-0.0", "0", "0.000", "10.5", "-7"] {
        let d = parse_decimal(s, 4096).unwrap();
        assert_eq!(format_decimal(&d.unscaled, d.scale, d.negative), s);
    }
}

#[test]
fn canonical_big_int_text_round_trips() {
    for s in ["0", "7", "-42", "123456789012345678901234567890"] {
        let b = parse_big_int(s, 4096).unwrap();
        assert_eq!(format_big_int(&b.abs, b.negative), s);
    }
}
