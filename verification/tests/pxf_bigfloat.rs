use protowire::pxf::bigfloat::{BigUint, Fl};
use protowire::pxf::{format_big_float, parse_big_float, BIG_FLOAT_PREC};

fn unhex(s: &str) -> Vec<u8> {
    (0..s.len())
        .step_by(2)
        .map(|i| u8::from_str_radix(&s[i..i + 2], 16).unwrap())
        .collect()
}

#[test]
fn biguint_basics() {
    let a = BigUint::from_decimal_digits(b"340282366920938463463374607431768211456"); // 2^128
    assert_eq!(a.bit_len(), 129);
    assert_eq!(
        a.to_decimal_string(),
        "340282366920938463463374607431768211456"
    );
    assert_eq!(a.to_be_bytes().len(), 17);
    assert_eq!(a.shr(128), BigUint::from_u64(1));
    assert_eq!(BigUint::from_u64(1).shl(128), a);
    let (q, r) = a.divrem(&BigUint::from_u64(10));
    assert_eq!(
        q.to_decimal_string(),
        "34028236692093846346337460743176821145"
    );
    assert_eq!(r, BigUint::from_u64(6));
    assert_eq!(
        BigUint::pow5_exact(27),
        BigUint::from_u64(7_450_580_596_923_828_125)
    );
    assert_eq!(
        BigUint::from_be_bytes(&[0, 0, 1, 0]).to_decimal_string(),
        "256"
    );
}

#[test]
fn round_half_even() {
    // 0b1011 rounded to 3 bits: 101|1 → tie, lsb 1 → up → 110 (exp +0 since no carry past width)
    let f = Fl::round_into(BigUint::from_u64(0b1011), 4, 3, false);
    let Fl::Finite { mant, exp, .. } = f else {
        panic!()
    };
    assert_eq!(mant, BigUint::from_u64(0b110));
    assert_eq!(exp, 4);
    // 0b1001 rounded to 3 bits: 100|1 → tie, lsb 0 → down → 100
    let f = Fl::round_into(BigUint::from_u64(0b1001), 4, 3, false);
    let Fl::Finite { mant, .. } = f else { panic!() };
    assert_eq!(mant, BigUint::from_u64(0b100));
    // 0b1111 rounded to 3 bits: 111|1 → up → 1000 → renormalize → 100, exp+1
    let f = Fl::round_into(BigUint::from_u64(0b1111), 4, 3, false);
    let Fl::Finite { mant, exp, .. } = f else {
        panic!()
    };
    assert_eq!(mant, BigUint::from_u64(0b100));
    assert_eq!(exp, 5);
}

#[test]
fn biguint_arithmetic_laws() {
    let a = BigUint::from_decimal_digits(b"123456789012345678901234567890");
    let b = BigUint::from_u64(987654321);
    let p = a.mul(&b);
    let (q, r) = p.divrem(&b);
    assert_eq!(q, a);
    assert!(r.is_zero());
    let mut c = a.mul(&BigUint::from_u64(1));
    c.sub_assign(&a);
    assert!(c.is_zero());
    let mut d = BigUint::from_u64(255);
    d.add_one();
    assert_eq!(d.to_be_bytes(), vec![1, 0]);
    assert!(BigUint::from_u64(5).bit(2));
    assert!(!BigUint::from_u64(5).bit(1));
    assert!(BigUint::from_u64(5).any_bit_below(1));
    assert!(!BigUint::from_u64(8).any_bit_below(3));
    assert_eq!(a.cmp(&b), std::cmp::Ordering::Greater);
    assert_eq!(BigUint::zero().to_decimal_string(), "0");
}

#[test]
fn parse_exact_literals() {
    let l = parse_big_float("1.5", 4096).unwrap();
    assert_eq!(
        l.mantissa,
        unhex("c000000000000000000000000000000000000000000000000000000000000000")
    );
    assert_eq!(l.exponent, -255);
    assert_eq!(l.prec, BIG_FLOAT_PREC);
    assert!(!l.negative);

    let l = parse_big_float("42", 4096).unwrap();
    assert_eq!(
        l.mantissa,
        unhex("a800000000000000000000000000000000000000000000000000000000000000")
    );
    assert_eq!(l.exponent, -250);

    let l = parse_big_float("1e100", 4096).unwrap();
    assert_eq!(
        l.mantissa,
        unhex("924d692ca61be758593c2626705f9c5672047108d3e555921845417478800000")
    );
    assert_eq!(l.exponent, 77);
}

#[test]
fn parse_rounded_literal() {
    let l = parse_big_float("-0.1", 4096).unwrap();
    assert_eq!(
        l.mantissa,
        unhex("cccccccccccccccccccccccccccccccccccccccccccccccccccccccccccccccd")
    );
    assert_eq!(l.exponent, -259);
    assert_eq!(l.prec, 256);
    assert!(l.negative);
}

#[test]
fn parse_zero_literal() {
    let l = parse_big_float("0.000", 4096).unwrap();
    assert!(l.mantissa.is_empty());
    assert_eq!(l.exponent, -256);
    assert_eq!(l.prec, 256);
    let l = parse_big_float("-0", 4096).unwrap();
    assert!(l.negative);
}

#[test]
fn parse_big_float_errors() {
    assert_eq!(
        parse_big_float("abc", 4096).unwrap_err(),
        "invalid big float: abc"
    );
    assert_eq!(parse_big_float(".", 4096).unwrap_err(), "invalid big float: .");
    assert_eq!(parse_big_float("1e", 4096).unwrap_err(), "invalid big float: 1e");
    assert_eq!(
        parse_big_float("1e99999999999999999999", 4096).unwrap_err(),
        "invalid big float: 1e99999999999999999999"
    );
    assert_eq!(
        parse_big_float("12345", 3).unwrap_err(),
        "numeric literal has 5 digits; MaxNumericLiteralDigits=3"
    );
    assert_eq!(
        parse_big_float("1e1000000000", 4096).unwrap_err(),
        "big float literal 1e1000000000 is above big.Float's range"
    );
    assert_eq!(
        parse_big_float("1e-1000000000", 4096).unwrap_err(),
        "big float literal 1e-1000000000 is below big.Float's range"
    );
    assert_eq!(
        parse_big_float("1000000000000000000000000000e1000000000", 4096).unwrap_err(),
        "big float literal 100000000000000000000000… is above big.Float's range"
    );
}

#[test]
fn format_big_float_values() {
    let l = parse_big_float("1.5", 4096).unwrap();
    assert_eq!(
        format_big_float(&l.mantissa, l.exponent, l.prec, l.negative).unwrap(),
        "1.5"
    );
    let l = parse_big_float("-0.1", 4096).unwrap();
    assert_eq!(
        format_big_float(&l.mantissa, l.exponent, l.prec, l.negative).unwrap(),
        "-0.1"
    );
    let l = parse_big_float("1e100", 4096).unwrap();
    assert_eq!(
        format_big_float(&l.mantissa, l.exponent, l.prec, l.negative).unwrap(),
        "1e+100"
    );
    let l = parse_big_float("0.00001", 4096).unwrap();
    assert_eq!(
        format_big_float(&l.mantissa, l.exponent, l.prec, l.negative).unwrap(),
        "9.99999999999999999999999999999999999999999999999999999999999999999999999999994e-06"
    );
    let l = parse_big_float("9.5367431640625e-7", 4096).unwrap();
    assert_eq!(
        format_big_float(&l.mantissa, l.exponent, l.prec, l.negative).unwrap(),
        "9.5367431640625e-07"
    );
    let l = parse_big_float("0.03125", 4096).unwrap();
    assert_eq!(
        format_big_float(&l.mantissa, l.exponent, l.prec, l.negative).unwrap(),
        "0.03125"
    );
    let l = parse_big_float("123456", 4096).unwrap();
    assert_eq!(
        format_big_float(&l.mantissa, l.exponent, l.prec, l.negative).unwrap(),
        "123456"
    );
    let l = parse_big_float("0.0001", 4096).unwrap();
    assert_eq!(
        format_big_float(&l.mantissa, l.exponent, l.prec, l.negative).unwrap(),
        "0.0001"
    );
    assert_eq!(format_big_float(&[], 0, 256, false).unwrap(), "0");
    assert_eq!(format_big_float(&[], 0, 256, true).unwrap(), "-0");
    assert_eq!(format_big_float(&[1], 0, 0, false).unwrap(), "0");
    assert_eq!(format_big_float(&[3], 0, 64, false).unwrap(), "3");
    assert_eq!(format_big_float(&[1], i32::MAX, 8, false).unwrap(), "+Inf");
}

#[test]
fn format_big_float_prec_limit() {
    assert_eq!(
        format_big_float(&[1], 0, 20000, false).unwrap_err(),
        "pxf.BigFloat prec 20000 bits renders to 6021 digits; MaxNumericLiteralDigits=4096"
    );
}
