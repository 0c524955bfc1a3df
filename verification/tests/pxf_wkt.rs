//! Timestamps, durations and map keys as text.
use protowire::pxf::map_key::{
    decode_map_key, format_map_key, is_valid_ident, write_quoted_string, MapKey, MapKeyKind,
};
use protowire::pxf::wkt::{
    civil_from_days, days_from_civil, format_go_duration, format_rfc3339_nano,
    is_any_full_name, is_wkt_skip_recursion, is_wrapper_full_name, parse_go_duration,
    parse_int_n, parse_rfc3339, trim_fraction,
};
use protowire::pxf::Position;

#[test]
fn calendar_days() {
    assert_eq!(days_from_civil(1970, 1, 1), 0);
    assert_eq!(days_from_civil(1969, 12, 31), -1);
    assert_eq!(days_from_civil(2000, 3, 1), 11017);
    assert_eq!(days_from_civil(2024, 2, 29), 19782);
    assert_eq!(days_from_civil(1, 1, 1), -719162);
    assert_eq!(civil_from_days(0), (1970, 1, 1));
    assert_eq!(civil_from_days(-1), (1969, 12, 31));
    assert_eq!(civil_from_days(19782), (2024, 2, 29));
    assert_eq!(civil_from_days(-719468), (0, 3, 1));
}

#[test]
fn calendar_round_trip_on_values() {
    for z in [-800000i64, -719163, -1, 0, 59, 60, 11016, 11017, 19782, 2932896] {
        let (y, m, d) = civil_from_days(z);
        assert_eq!(days_from_civil(y, m, d), z, "{z}");
    }
}

#[test]
fn parse_int_digits() {
    assert_eq!(parse_int_n(b"0042"), Ok(42));
    assert_eq!(parse_int_n(b""), Ok(0));
    assert_eq!(parse_int_n(b"4a"), Err("non-digit".to_string()));
}

#[test]
fn rfc3339_parse() {
    assert_eq!(parse_rfc3339("2024-01-01T12:00:00Z"), Ok((1704110400, 0)));
    assert_eq!(
        parse_rfc3339("1970-01-01T00:00:00.123456789Z"),
        Ok((0, 123456789))
    );
    assert_eq!(
        parse_rfc3339("1970-01-01T00:00:00.1234567891Z"),
        Ok((0, 123456789))
    );
    assert_eq!(parse_rfc3339("1970-01-01T01:00:00+01:00"), Ok((0, 0)));
    assert_eq!(
        parse_rfc3339("2024-02-29T00:00:00.5-00:30"),
        Ok((1709166600, 500000000))
    );
}

#[test]
fn rfc3339_format() {
    assert_eq!(format_rfc3339_nano(1704110400, 0), "2024-01-01T12:00:00Z");
    assert_eq!(
        format_rfc3339_nano(0, 123456789),
        "1970-01-01T00:00:00.123456789Z"
    );
    assert_eq!(format_rfc3339_nano(0, 500000000), "1970-01-01T00:00:00.5Z");
    assert_eq!(format_rfc3339_nano(-1, 0), "1969-12-31T23:59:59Z");
    assert_eq!(format_rfc3339_nano(-62135596800, 0), "0001-01-01T00:00:00Z");
    assert_eq!(format_rfc3339_nano(-62198755200, 0), "-001-01-01T00:00:00Z");
}

#[test]
fn rfc3339_round_trip_on_values() {
    for (s, n) in [(0i64, 0i32), (1709166600, 500000000), (-1, 999999999), (253402300799, 1)] {
        let text = format_rfc3339_nano(s, n);
        assert_eq!(parse_rfc3339(&text), Ok((s, n)), "{text}");
    }
}

#[test]
fn go_duration_parse() {
    assert_eq!(parse_go_duration("1h30m"), Ok((5400, 0)));
    assert_eq!(parse_go_duration("1500ms"), Ok((1, 500000000)));
    assert_eq!(parse_go_duration("-2500ms"), Ok((-2, -500000000)));
    assert_eq!(parse_go_duration("+1.5s"), Ok((1, 500000000)));
    assert_eq!(parse_go_duration("100ns"), Ok((0, 100)));
    assert_eq!(parse_go_duration("2.25us"), Ok((0, 2250)));
    assert_eq!(parse_go_duration("1.0000000009s"), Ok((1, 0)));
    assert_eq!(parse_go_duration("0"), Ok((0, 0)));
}

#[test]
fn go_duration_format() {
    assert_eq!(format_go_duration(5400, 0), "1h30m0s");
    assert_eq!(format_go_duration(1, 500000000), "1.5s");
    assert_eq!(format_go_duration(0, 100), "100ns");
    assert_eq!(format_go_duration(0, 1500), "1.5µs");
    assert_eq!(format_go_duration(0, 1500000), "1.5ms");
    assert_eq!(format_go_duration(0, 0), "0s");
    assert_eq!(format_go_duration(-2, -500000000), "-2.5s");
    assert_eq!(format_go_duration(90, 0), "1m30s");
    assert_eq!(format_go_duration(3600, 0), "1h0m0s");
    assert_eq!(trim_fraction(5000, 1000), "5");
    assert_eq!(trim_fraction(5250, 1000), "5.25");
    assert_eq!(trim_fraction(1000000001, 1000000000), "1.000000001");
}

#[test]
fn go_duration_round_trip_on_values() {
    for (s, n) in [(5400i64, 0i32), (1, 500000000), (0, 100), (-2, -500000000), (0, 1500)] {
        let text = format_go_duration(s, n);
        assert_eq!(parse_go_duration(&text.replace('µ', "u")), Ok((s, n)), "{text}");
    }
}

#[test]
fn well_known_names() {
    assert!(is_wrapper_full_name("google.protobuf.Int64Value"));
    assert!(!is_wrapper_full_name("google.protobuf.Timestamp"));
    assert!(is_any_full_name("google.protobuf.Any"));
    assert!(is_wkt_skip_recursion("google.protobuf.Timestamp"));
    assert!(is_wkt_skip_recursion("google.protobuf.BoolValue"));
    assert!(!is_wkt_skip_recursion("google.protobuf.FieldMask"));
}

fn p() -> Position {
    Position { line: 2, column: 5, offset: 0 }
}

#[test]
fn map_key_decoding() {
    assert_eq!(decode_map_key(&MapKeyKind::Int32, "42".into(), p()), Ok(MapKey::I32(42)));
    assert_eq!(decode_map_key(&MapKeyKind::Int32, "-7".into(), p()), Ok(MapKey::I32(-7)));
    assert_eq!(decode_map_key(&MapKeyKind::Int32, "+5".into(), p()), Ok(MapKey::I32(5)));
    assert_eq!(
        decode_map_key(&MapKeyKind::Int32, "2147483648".into(), p()).unwrap_err().msg,
        "invalid int32 map key: 2147483648"
    );
    assert_eq!(
        decode_map_key(&MapKeyKind::Int32, "not_a_number".into(), p()).unwrap_err().msg,
        "invalid int32 map key: not_a_number"
    );
    assert_eq!(
        decode_map_key(&MapKeyKind::Int64, "-9223372036854775808".into(), p()),
        Ok(MapKey::I64(i64::MIN))
    );
    assert!(decode_map_key(&MapKeyKind::Uint32, "-1".into(), p()).is_err());
    assert_eq!(
        decode_map_key(&MapKeyKind::Uint64, "18446744073709551615".into(), p()),
        Ok(MapKey::U64(u64::MAX))
    );
    assert!(decode_map_key(&MapKeyKind::Uint64, "18446744073709551616".into(), p()).is_err());
    assert!(decode_map_key(&MapKeyKind::Uint64, "".into(), p()).is_err());
    assert!(decode_map_key(&MapKeyKind::Int32, "-".into(), p()).is_err());
    assert_eq!(decode_map_key(&MapKeyKind::Bool, "true".into(), p()), Ok(MapKey::Bool(true)));
    let e = decode_map_key(&MapKeyKind::Bool, "yes".into(), p()).unwrap_err();
    assert_eq!(e.msg, "invalid bool map key: yes");
    assert_eq!(e.pos, p());
    assert_eq!(
        decode_map_key(&MapKeyKind::String, "with space".into(), p()),
        Ok(MapKey::String("with space".into()))
    );
    assert_eq!(
        decode_map_key(&MapKeyKind::Unsupported("Double".into()), "1".into(), p())
            .unwrap_err()
            .msg,
        "unsupported map key kind: Double"
    );
}

#[test]
fn map_key_writing() {
    assert!(is_valid_ident("foo_1"));
    assert!(!is_valid_ident("user.name"));
    assert!(!is_valid_ident("null"));
    assert_eq!(format_map_key(&MapKey::String("foo".into())), "foo");
    assert_eq!(format_map_key(&MapKey::String("with space".into())), "\"with space\"");
    assert_eq!(format_map_key(&MapKey::String("true".into())), "\"true\"");
    assert_eq!(format_map_key(&MapKey::String("a\u{1}\"".into())), "\"a\\x01\\\"\"");
    assert_eq!(format_map_key(&MapKey::I32(-5)), "-5");
    assert_eq!(format_map_key(&MapKey::I64(i64::MIN)), "-9223372036854775808");
    assert_eq!(format_map_key(&MapKey::U64(7)), "7");
    assert_eq!(format_map_key(&MapKey::Bool(false)), "false");
    assert_eq!(write_quoted_string("tab\there"), "\"tab\\there\"");
}

#[test]
fn rfc3339_errors() {
    assert_eq!(parse_rfc3339("2024-01-01T00:00"), Err("too short".to_string()));
    assert_eq!(parse_rfc3339("2024-0a-01T00:00:00Z"), Err("non-digit".to_string()));
    assert_eq!(parse_rfc3339("2024-01-01T00:00:00.5"), Err("missing zone".to_string()));
    assert_eq!(parse_rfc3339("2024-01-01T00:00:00+01:0"), Err("malformed offset".to_string()));
    assert_eq!(parse_rfc3339("2024-01-01T00:00:00+0x:00"), Err("non-digit".to_string()));
    assert_eq!(parse_rfc3339("2024-01-01T00:00:00Q"), Err("unexpected zone".to_string()));
    // The separators are not looked at, and a lower-case zone reads.
    assert_eq!(parse_rfc3339("2024/01/01 12:00:00z"), Ok((1704110400, 0)));
}
