use protowire::pxf::decode::{
    check_oneof, consume_enum, consume_scalar, decode_field_value, decode_scalar_list,
    decode_scalar_map, skip_value, DecodedValue, EnumType, EnumValue, FieldShape, FieldValue,
    ScalarKind,
};
use protowire::pxf::map_key::{MapKey, MapKeyKind};
use protowire::pxf::{Position, Token, TokenKind};

fn tok(kind: TokenKind, value: &str) -> Token {
    Token::new(kind, value.to_string(), Position::new(3, 7))
}

fn color() -> EnumType {
    EnumType {
        full_name: "test.v1.Color".to_string(),
        values: vec![
            EnumValue { name: "RED".to_string(), number: 0 },
            EnumValue { name: "GREEN".to_string(), number: 5 },
        ],
    }
}

fn err_msg(r: Result<FieldValue, protowire::pxf::PxfError>) -> String {
    match r {
        Err(e) => {
            assert_eq!(e.pos, Position::new(3, 7));
            e.msg
        }
        Ok(v) => panic!("expected an error, got {:?}", v),
    }
}

#[test]
fn string_and_bool_scalars() {
    match consume_scalar(&ScalarKind::String, &tok(TokenKind::String, "hi"), "name") {
        Ok(FieldValue::String(s)) => assert_eq!(s, "hi"),
        other => panic!("{:?}", other),
    }
    match consume_scalar(&ScalarKind::Bool, &tok(TokenKind::Bool, "true"), "on") {
        Ok(FieldValue::Bool(b)) => assert!(b),
        other => panic!("{:?}", other),
    }
    match consume_scalar(&ScalarKind::Bool, &tok(TokenKind::Bool, "false"), "on") {
        Ok(FieldValue::Bool(b)) => assert!(!b),
        other => panic!("{:?}", other),
    }
    let m = err_msg(consume_scalar(&ScalarKind::String, &tok(TokenKind::Int, "1"), "name"));
    assert_eq!(m, "expected string for field \"name\"");
    let m = err_msg(consume_scalar(&ScalarKind::Bool, &tok(TokenKind::Ident, "yes"), "on"));
    assert_eq!(m, "expected bool for field \"on\"");
}

#[test]
fn integer_scalars_check_their_range() {
    match consume_scalar(&ScalarKind::Int32, &tok(TokenKind::Int, "-2147483648"), "n") {
        Ok(FieldValue::I32(n)) => assert_eq!(n, i32::MIN),
        other => panic!("{:?}", other),
    }
    let m = err_msg(consume_scalar(&ScalarKind::Int32, &tok(TokenKind::Int, "2147483648"), "n"));
    assert_eq!(m, "invalid int32: 2147483648");
    match consume_scalar(&ScalarKind::Int64, &tok(TokenKind::Int, "-9223372036854775808"), "n") {
        Ok(FieldValue::I64(n)) => assert_eq!(n, i64::MIN),
        other => panic!("{:?}", other),
    }
    match consume_scalar(&ScalarKind::Uint64, &tok(TokenKind::Int, "18446744073709551615"), "n") {
        Ok(FieldValue::U64(n)) => assert_eq!(n, u64::MAX),
        other => panic!("{:?}", other),
    }
    let m = err_msg(consume_scalar(&ScalarKind::Uint32, &tok(TokenKind::Int, "-1"), "n"));
    assert_eq!(m, "invalid uint32: -1");
    match consume_scalar(&ScalarKind::Uint32, &tok(TokenKind::Int, "4294967295"), "n") {
        Ok(FieldValue::U32(n)) => assert_eq!(n, u32::MAX),
        other => panic!("{:?}", other),
    }
    let m = err_msg(consume_scalar(&ScalarKind::Uint64, &tok(TokenKind::Float, "1.5"), "n"));
    assert_eq!(m, "expected integer for field \"n\"");
}

#[test]
fn numbers_keep_their_literal() {
    match consume_scalar(&ScalarKind::Double, &tok(TokenKind::Float, "2.5e3"), "x") {
        Ok(FieldValue::Double(s)) => assert_eq!(s, "2.5e3"),
        other => panic!("{:?}", other),
    }
    match consume_scalar(&ScalarKind::Float, &tok(TokenKind::Int, "7"), "x") {
        Ok(FieldValue::Float(s)) => assert_eq!(s, "7"),
        other => panic!("{:?}", other),
    }
    let m = err_msg(consume_scalar(&ScalarKind::Double, &tok(TokenKind::String, "7"), "x"));
    assert_eq!(m, "expected number for field \"x\"");
}

#[test]
fn bytes_decode_base64() {
    match consume_scalar(&ScalarKind::Bytes, &tok(TokenKind::Bytes, "aGVsbG8="), "b") {
        Ok(FieldValue::Bytes(b)) => assert_eq!(b, b"hello".to_vec()),
        other => panic!("{:?}", other),
    }
    match consume_scalar(&ScalarKind::Bytes, &tok(TokenKind::Bytes, "aGk"), "b") {
        Ok(FieldValue::Bytes(b)) => assert_eq!(b, b"hi".to_vec()),
        other => panic!("{:?}", other),
    }
    let m = err_msg(consume_scalar(&ScalarKind::Bytes, &tok(TokenKind::Bytes, "a*Gk"), "b"));
    assert_eq!(m, "invalid base64 for field \"b\"");
    let m = err_msg(consume_scalar(&ScalarKind::Bytes, &tok(TokenKind::String, "aGk"), "b"));
    assert_eq!(m, "expected bytes for field \"b\"");
}

#[test]
fn enum_values_by_name_or_number() {
    match consume_enum(&color(), &tok(TokenKind::Ident, "GREEN"), "c") {
        Ok(FieldValue::EnumNumber(n)) => assert_eq!(n, 5),
        other => panic!("{:?}", other),
    }
    match consume_scalar(&ScalarKind::Enum(color()), &tok(TokenKind::Int, "-3"), "c") {
        Ok(FieldValue::EnumNumber(n)) => assert_eq!(n, -3),
        other => panic!("{:?}", other),
    }
    let m = err_msg(consume_enum(&color(), &tok(TokenKind::Ident, "BLUE"), "c"));
    assert_eq!(m, "unknown enum value \"BLUE\" for test.v1.Color");
    let m = err_msg(consume_enum(&color(), &tok(TokenKind::Int, "99999999999"), "c"));
    assert_eq!(m, "invalid enum number: 99999999999");
    let m = err_msg(consume_enum(&color(), &tok(TokenKind::String, "RED"), "c"));
    assert_eq!(m, "expected enum name or number for field \"c\"");
}

#[test]
fn second_member_of_a_oneof_conflicts() {
    let mut set: Vec<(String, String)> = Vec::new();
    assert!(check_oneof(None, "plain", &mut set, Position::new(1, 1)).is_ok());
    assert!(set.is_empty());
    assert!(check_oneof(Some("choice"), "a", &mut set, Position::new(1, 1)).is_ok());
    assert_eq!(set, vec![("choice".to_string(), "a".to_string())]);
    let e = check_oneof(Some("choice"), "b", &mut set, Position::new(2, 4)).unwrap_err();
    assert_eq!(e.pos, Position::new(2, 4));
    assert_eq!(e.msg, "oneof \"choice\": field \"b\" conflicts with already-set field \"a\"");
    assert_eq!(set.len(), 1);
    assert!(check_oneof(Some("other"), "c", &mut set, Position::new(3, 1)).is_ok());
    assert_eq!(set.len(), 2);
}

fn at(kind: TokenKind, value: &str, col: usize) -> Token {
    Token::new(kind, value.to_string(), Position::new(1, col))
}

#[test]
fn scalar_list_with_optional_commas() {
    let toks = vec![
        at(TokenKind::LBracket, "[", 1),
        at(TokenKind::Int, "1", 2),
        at(TokenKind::Comma, ",", 3),
        at(TokenKind::Int, "2", 5),
        at(TokenKind::Int, "3", 7),
        at(TokenKind::RBracket, "]", 8),
        at(TokenKind::Eof, "", 9),
    ];
    let (vals, next) = decode_scalar_list(&toks, 0, 0, &ScalarKind::Int32, "xs").unwrap();
    assert_eq!(next, 6);
    let got: Vec<i32> = vals
        .iter()
        .map(|v| match v {
            FieldValue::I32(n) => *n,
            other => panic!("{:?}", other),
        })
        .collect();
    assert_eq!(got, vec![1, 2, 3]);
}

#[test]
fn scalar_list_errors() {
    let no_bracket = vec![at(TokenKind::Int, "1", 4), at(TokenKind::Eof, "", 5)];
    let e = decode_scalar_list(&no_bracket, 0, 0, &ScalarKind::Int32, "xs").unwrap_err();
    assert_eq!(e.msg, "expected '[' for repeated field \"xs\"");
    assert_eq!(e.pos, Position::new(1, 4));
    let with_null = vec![
        at(TokenKind::LBracket, "[", 1),
        at(TokenKind::Null, "null", 2),
        at(TokenKind::RBracket, "]", 6),
        at(TokenKind::Eof, "", 7),
    ];
    let e = decode_scalar_list(&with_null, 0, 0, &ScalarKind::Int32, "xs").unwrap_err();
    assert_eq!(e.msg, "null is not allowed in repeated field \"xs\"");
    assert_eq!(e.pos, Position::new(1, 2));
    let unclosed = vec![at(TokenKind::LBracket, "[", 1), at(TokenKind::Int, "1", 2), at(TokenKind::Eof, "", 3)];
    let e = decode_scalar_list(&unclosed, 0, 0, &ScalarKind::Int32, "xs").unwrap_err();
    assert_eq!(e.msg, "expected ']', got EOF");
    let deep = vec![at(TokenKind::LBracket, "[", 1), at(TokenKind::RBracket, "]", 2), at(TokenKind::Eof, "", 3)];
    let e = decode_scalar_list(&deep, 0, 100, &ScalarKind::Int32, "xs").unwrap_err();
    assert_eq!(e.msg, "nesting depth exceeds MaxNestingDepth (100)");
    assert_eq!(decode_scalar_list(&deep, 0, 99, &ScalarKind::Int32, "xs").unwrap().1, 2);
}

#[test]
fn scalar_map_entries_in_order() {
    let toks = vec![
        at(TokenKind::LBrace, "{", 1),
        at(TokenKind::Int, "7", 2),
        at(TokenKind::Colon, ":", 3),
        at(TokenKind::String, "seven", 5),
        at(TokenKind::Int, "-1", 12),
        at(TokenKind::Colon, ":", 14),
        at(TokenKind::String, "minus one", 16),
        at(TokenKind::RBrace, "}", 28),
        at(TokenKind::Eof, "", 29),
    ];
    let (entries, next) =
        decode_scalar_map(&toks, 0, 0, &MapKeyKind::Int32, &ScalarKind::String, "names").unwrap();
    assert_eq!(next, 8);
    assert_eq!(entries.len(), 2);
    assert_eq!(entries[0].0, MapKey::I32(7));
    assert_eq!(entries[1].0, MapKey::I32(-1));
    match &entries[1].1 {
        FieldValue::String(s) => assert_eq!(s, "minus one"),
        other => panic!("{:?}", other),
    }
}

#[test]
fn scalar_map_errors() {
    let eq = vec![
        at(TokenKind::LBrace, "{", 1),
        at(TokenKind::Ident, "a", 2),
        at(TokenKind::Equals, "=", 4),
        at(TokenKind::Int, "1", 6),
        at(TokenKind::RBrace, "}", 8),
        at(TokenKind::Eof, "", 9),
    ];
    let e = decode_scalar_map(&eq, 0, 0, &MapKeyKind::String, &ScalarKind::Int64, "m").unwrap_err();
    assert_eq!(e.msg, "unexpected '=' in map, use ':' for map entries");
    assert_eq!(e.pos, Position::new(1, 4));
    let bad_key = vec![
        at(TokenKind::LBrace, "{", 1),
        at(TokenKind::Ident, "x", 2),
        at(TokenKind::Colon, ":", 3),
        at(TokenKind::Int, "1", 5),
        at(TokenKind::RBrace, "}", 6),
        at(TokenKind::Eof, "", 7),
    ];
    let e = decode_scalar_map(&bad_key, 0, 0, &MapKeyKind::Int32, &ScalarKind::Int64, "m").unwrap_err();
    assert_eq!(e.msg, "invalid int32 map key: x");
    assert_eq!(e.pos, Position::new(1, 2));
    let null_value = vec![
        at(TokenKind::LBrace, "{", 1),
        at(TokenKind::Ident, "k", 2),
        at(TokenKind::Colon, ":", 3),
        at(TokenKind::Null, "null", 5),
        at(TokenKind::RBrace, "}", 10),
        at(TokenKind::Eof, "", 11),
    ];
    let e = decode_scalar_map(&null_value, 0, 0, &MapKeyKind::String, &ScalarKind::Int64, "m").unwrap_err();
    assert_eq!(e.msg, "null is not allowed as map value in field \"m\"");
    let bad_start = vec![at(TokenKind::LBracket, "[", 1), at(TokenKind::Eof, "", 2)];
    let e = decode_scalar_map(&bad_start, 0, 0, &MapKeyKind::String, &ScalarKind::Int64, "m").unwrap_err();
    assert_eq!(e.msg, "expected '{' for map field \"m\"");
    let unclosed = vec![at(TokenKind::LBrace, "{", 1), at(TokenKind::Eof, "", 2)];
    let e = decode_scalar_map(&unclosed, 0, 0, &MapKeyKind::String, &ScalarKind::Int64, "m").unwrap_err();
    assert_eq!(e.msg, "expected '}', got EOF");
}

#[test]
fn field_value_by_shape() {
    let toks = vec![
        at(TokenKind::String, "x", 1),
        at(TokenKind::LBrace, "{", 3),
        at(TokenKind::LBrace, "{", 4),
        at(TokenKind::RBrace, "}", 5),
        at(TokenKind::RBrace, "}", 6),
        at(TokenKind::Ident, "next", 8),
        at(TokenKind::Eof, "", 12),
    ];
    match decode_field_value(&toks, 0, 0, &FieldShape::Single(ScalarKind::String), "s").unwrap() {
        (DecodedValue::Single(FieldValue::String(s)), 1) => assert_eq!(s, "x"),
        other => panic!("{:?}", other),
    }
    let e = decode_field_value(&toks, 1, 0, &FieldShape::List(ScalarKind::Int32), "xs").unwrap_err();
    assert_eq!(e.msg, "expected '[' for repeated field \"xs\"");
    match decode_field_value(&toks, 1, 0, &FieldShape::MapOf(MapKeyKind::String, ScalarKind::Int32), "m") {
        Err(e) => assert_eq!(e.msg, "expected map key, got {"),
        other => panic!("{:?}", other),
    }
    assert_eq!(skip_value(&toks, 1), 5);
    assert_eq!(skip_value(&toks, 0), 1);
    assert_eq!(skip_value(&toks, 6), 6);
    let unclosed = vec![at(TokenKind::LBracket, "[", 1), at(TokenKind::Int, "1", 2), at(TokenKind::Eof, "", 3)];
    assert_eq!(skip_value(&unclosed, 0), 2);
}
