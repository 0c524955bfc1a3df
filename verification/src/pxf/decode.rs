//! Decoding one field value against its declared type: the token that
//! stands for a scalar or an enum value becomes a typed value, or the error
//! the decoder reports at that token.
use vstd::prelude::*;
use vstd::utf8::encode_utf8;

use crate::pxf::base64::{base64_decode_spec, decode_base64, is_b64_char};
use crate::pxf::errors::PxfError;
use crate::pxf::limits::MAX_NESTING_DEPTH;
use crate::pxf::map_key::{decode_map_key, int_in_range, map_key_outcome, parse_int_text, MapKey, MapKeyKind};
use crate::pxf::token::{token_kind_name, Position, Token, TokenKind};
use crate::text::{concat, owned, push_str, str_is};

verus! {

/// A value of an enum type: its name and number.
#[derive(Debug, Clone)]
pub struct EnumValue {
    pub name: String,
    pub number: i32,
}

/// An enum type with its values in declaration order.
#[derive(Debug, Clone)]
pub struct EnumType {
    pub full_name: String,
    pub values: Vec<EnumValue>,
}

/// The declared type of a non-message field. The zigzag and fixed
/// encodings of one width read alike.
#[derive(Debug, Clone)]
pub enum ScalarKind {
    String,
    Bool,
    Int32,
    Int64,
    Uint32,
    Uint64,
    Float,
    Double,
    Bytes,
    Enum(EnumType),
}

/// A decoded scalar. A `float` or `double` keeps the literal it was read
/// from: turning it into a floating-point number is left to the caller.
#[derive(Debug, Clone)]
pub enum FieldValue {
    String(String),
    Bool(bool),
    I32(i32),
    I64(i64),
    U32(u32),
    U64(u64),
    Float(String),
    Double(String),
    Bytes(Vec<u8>),
    EnumNumber(i32),
}

/// A decoded scalar as values.
pub enum ValueModel {
    String(Seq<char>),
    Bool(bool),
    I32(int),
    I64(int),
    U32(int),
    U64(int),
    Float(Seq<char>),
    Double(Seq<char>),
    Bytes(Seq<u8>),
    EnumNumber(int),
}

pub open spec fn value_model(v: FieldValue) -> ValueModel {
    match v {
        FieldValue::String(s) => ValueModel::String(s@),
        FieldValue::Bool(b) => ValueModel::Bool(b),
        FieldValue::I32(n) => ValueModel::I32(n as int),
        FieldValue::I64(n) => ValueModel::I64(n as int),
        FieldValue::U32(n) => ValueModel::U32(n as int),
        FieldValue::U64(n) => ValueModel::U64(n as int),
        FieldValue::Float(s) => ValueModel::Float(s@),
        FieldValue::Double(s) => ValueModel::Double(s@),
        FieldValue::Bytes(b) => ValueModel::Bytes(b@),
        FieldValue::EnumNumber(n) => ValueModel::EnumNumber(n as int),
    }
}

/// A name as decode errors quote it.
pub open spec fn quote(s: Seq<char>) -> Seq<char> {
    "\""@ + s + "\""@
}

/// Whether every byte before the first `=` is in the base64 alphabet.
pub open spec fn alphabet_until_pad(s: Seq<u8>) -> bool
    decreases s.len(),
{
    if s.len() == 0 || s[0] == 61 {
        true
    } else {
        is_b64_char(s[0]) && alphabet_until_pad(s.drop_first())
    }
}

/// The number of the first value named `name`, from position `i` on.
pub open spec fn enum_number(vs: Seq<EnumValue>, name: Seq<char>, i: int) -> Option<i32>
    decreases vs.len() - i,
{
    if i < 0 || i >= vs.len() {
        None
    } else if vs[i].name@ == name {
        Some(vs[i].number)
    } else {
        enum_number(vs, name, i + 1)
    }
}

/// What an enum field's token decodes to: a value named by an identifier,
/// or a number written as an `int32`; else the error message.
pub open spec fn enum_outcome(e: EnumType, tok: Token, field: Seq<char>) -> Result<ValueModel, Seq<char>> {
    if tok.kind == TokenKind::Ident {
        match enum_number(e.values@, tok.value@, 0) {
            Some(n) => Ok(ValueModel::EnumNumber(n as int)),
            None => Err("unknown enum value "@ + quote(tok.value@) + " for "@ + e.full_name@),
        }
    } else if tok.kind == TokenKind::Int {
        match int_in_range(tok.value@, true, i32::MIN as int, i32::MAX as int) {
            Some(n) => Ok(ValueModel::EnumNumber(n)),
            None => Err("invalid enum number: "@ + tok.value@),
        }
    } else {
        Err("expected enum name or number for field "@ + quote(field))
    }
}

/// An integer field's token: an `integer` token whose text `FromStr` reads
/// in the type's range.
pub open spec fn int_outcome(
    tok: Token,
    field: Seq<char>,
    signed: bool,
    min: int,
    max: int,
    type_label: Seq<char>,
) -> Result<int, Seq<char>> {
    if tok.kind != TokenKind::Int {
        Err("expected integer for field "@ + quote(field))
    } else {
        match int_in_range(tok.value@, signed, min, max) {
            Some(n) => Ok(n),
            None => Err("invalid "@ + type_label + ": "@ + tok.value@),
        }
    }
}

/// What the token at a field of kind `kind` named `field` decodes to, or
/// the message of the error reported at the token.
pub open spec fn scalar_outcome(kind: ScalarKind, tok: Token, field: Seq<char>) -> Result<
    ValueModel,
    Seq<char>,
> {
    match kind {
        ScalarKind::String => if tok.kind == TokenKind::String {
            Ok(ValueModel::String(tok.value@))
        } else {
            Err("expected string for field "@ + quote(field))
        },
        ScalarKind::Bool => if tok.kind == TokenKind::Bool {
            Ok(ValueModel::Bool(tok.value@ == "true"@))
        } else {
            Err("expected bool for field "@ + quote(field))
        },
        ScalarKind::Int32 => match int_outcome(tok, field, true, i32::MIN as int, i32::MAX as int, "int32"@) {
            Ok(n) => Ok(ValueModel::I32(n)),
            Err(m) => Err(m),
        },
        ScalarKind::Int64 => match int_outcome(tok, field, true, i64::MIN as int, i64::MAX as int, "int64"@) {
            Ok(n) => Ok(ValueModel::I64(n)),
            Err(m) => Err(m),
        },
        ScalarKind::Uint32 => match int_outcome(tok, field, false, 0, u32::MAX as int, "uint32"@) {
            Ok(n) => Ok(ValueModel::U32(n)),
            Err(m) => Err(m),
        },
        ScalarKind::Uint64 => match int_outcome(tok, field, false, 0, u64::MAX as int, "uint64"@) {
            Ok(n) => Ok(ValueModel::U64(n)),
            Err(m) => Err(m),
        },
        ScalarKind::Float => if tok.kind == TokenKind::Float || tok.kind == TokenKind::Int {
            Ok(ValueModel::Float(tok.value@))
        } else {
            Err("expected number for field "@ + quote(field))
        },
        ScalarKind::Double => if tok.kind == TokenKind::Float || tok.kind == TokenKind::Int {
            Ok(ValueModel::Double(tok.value@))
        } else {
            Err("expected number for field "@ + quote(field))
        },
        ScalarKind::Bytes => if tok.kind != TokenKind::Bytes {
            Err("expected bytes for field "@ + quote(field))
        } else if !alphabet_until_pad(encode_utf8(tok.value@)) {
            Err("invalid base64 for field "@ + quote(field))
        } else {
            Ok(ValueModel::Bytes(base64_decode_spec(encode_utf8(tok.value@))))
        },
        ScalarKind::Enum(e) => enum_outcome(e, tok, field),
    }
}

/// `m` followed by `field` in quotes.
fn with_quoted(m: &str, field: &str) -> (r: String)
    ensures
        r@ == m@ + quote(field@),
{
    let mut r = owned(m);
    push_str(&mut r, "\"");
    push_str(&mut r, field);
    push_str(&mut r, "\"");
    r
}

fn fail(tok: &Token, msg: String) -> (r: Result<FieldValue, PxfError>)
    ensures
        r matches Err(e) && e.pos == tok.pos && e.msg == msg,
{
    Err(PxfError::new(tok.pos, msg))
}

/// Whether every byte before the first `=` is in the base64 alphabet.
fn base64_alphabet_ok(s: &[u8]) -> (r: bool)
    ensures
        r == alphabet_until_pad(s@),
{
    let mut i: usize = 0;
    assert(s@.subrange(0, s@.len() as int) =~= s@);
    while i < s.len()
        invariant
            i <= s@.len(),
            alphabet_until_pad(s@) == alphabet_until_pad(s@.subrange(i as int, s@.len() as int)),
        decreases s@.len() - i,
    {
        let ghost t = s@.subrange(i as int, s@.len() as int);
        assert(t.drop_first() =~= s@.subrange(i + 1, s@.len() as int));
        let c = s[i];
        if c == 61 {
            return true;
        }
        if !((65 <= c && c <= 90) || (97 <= c && c <= 122) || (48 <= c && c <= 57) || c == 43
            || c == 47) {
            return false;
        }
        i = i + 1;
    }
    assert(s@.subrange(i as int, s@.len() as int).len() == 0);
    true
}

/// The number of the first value of `e` named `name`.
fn find_enum_number(e: &EnumType, name: &String) -> (r: Option<i32>)
    ensures
        r == enum_number(e.values@, name@, 0),
{
    let mut i: usize = 0;
    while i < e.values.len()
        invariant
            i <= e.values@.len(),
            enum_number(e.values@, name@, 0) == enum_number(e.values@, name@, i as int),
        decreases e.values@.len() - i,
    {
        if e.values[i].name.eq(name) {
            return Some(e.values[i].number);
        }
        i = i + 1;
    }
    None
}

/// Decode an enum field's token: an identifier names a value of `e`, an
/// integer gives the number directly.
pub fn consume_enum(e: &EnumType, tok: &Token, field: &str) -> (r: Result<FieldValue, PxfError>)
    ensures
        match enum_outcome(*e, *tok, field@) {
            Ok(v) => r matches Ok(x) && value_model(x) == v,
            Err(m) => r matches Err(err) && err.pos == tok.pos && err.msg@ == m,
        },
{
    match tok.kind {
        TokenKind::Ident => match find_enum_number(e, &tok.value) {
            Some(n) => Ok(FieldValue::EnumNumber(n)),
            None => {
                let mut m = with_quoted("unknown enum value ", tok.value.as_str());
                push_str(&mut m, " for ");
                push_str(&mut m, e.full_name.as_str());
                fail(tok, m)
            },
        },
        TokenKind::Int => match parse_int_text(tok.value.as_str(), true, -0x8000_0000, 0x7fff_ffff) {
            Some(n) => {
                assert(-0x8000_0000 <= n <= 0x7fff_ffff);
                Ok(FieldValue::EnumNumber(n as i32))
            },
            None => {
                let mut m = owned("invalid enum number: ");
                push_str(&mut m, tok.value.as_str());
                fail(tok, m)
            },
        },
        _ => fail(tok, with_quoted("expected enum name or number for field ", field)),
    }
}

/// An integer field's token read in `min..=max`, or its error.
fn consume_int(tok: &Token, field: &str, signed: bool, min: i128, max: i128, type_label: &str) -> (r:
    Result<i128, PxfError>)
    requires
        -0x1_0000_0000_0000_0000 <= min <= max <= 0x1_0000_0000_0000_0000,
    ensures
        match int_outcome(*tok, field@, signed, min as int, max as int, type_label@) {
            Ok(n) => r == Ok::<i128, PxfError>(n as i128),
            Err(m) => r matches Err(e) && e.pos == tok.pos && e.msg@ == m,
        },
{
    if tok.kind != TokenKind::Int {
        return Err(PxfError::new(tok.pos, with_quoted("expected integer for field ", field)));
    }
    match parse_int_text(tok.value.as_str(), signed, min, max) {
        Some(n) => Ok(n),
        None => {
            let mut m = owned("invalid ");
            push_str(&mut m, type_label);
            push_str(&mut m, ": ");
            push_str(&mut m, tok.value.as_str());
            Err(PxfError::new(tok.pos, m))
        },
    }
}

/// Decode the token standing for a value of field `field`, of kind `kind`:
/// a string, bool, integer, number, bytes or enum literal of the right
/// kind, integers in the type's range, bytes in base64.
pub fn consume_scalar(kind: &ScalarKind, tok: &Token, field: &str) -> (r: Result<FieldValue, PxfError>)
    ensures
        match scalar_outcome(*kind, *tok, field@) {
            Ok(v) => r matches Ok(x) && value_model(x) == v,
            Err(m) => r matches Err(e) && e.pos == tok.pos && e.msg@ == m,
        },
{
    match kind {
        ScalarKind::String => {
            if tok.kind == TokenKind::String {
                Ok(FieldValue::String(tok.value.clone()))
            } else {
                fail(tok, with_quoted("expected string for field ", field))
            }
        },
        ScalarKind::Bool => {
            if tok.kind == TokenKind::Bool {
                Ok(FieldValue::Bool(str_is(&tok.value, "true")))
            } else {
                fail(tok, with_quoted("expected bool for field ", field))
            }
        },
        ScalarKind::Int32 => match consume_int(tok, field, true, -0x8000_0000, 0x7fff_ffff, "int32") {
            Ok(n) => Ok(FieldValue::I32(n as i32)),
            Err(e) => Err(e),
        },
        ScalarKind::Int64 => match consume_int(
            tok,
            field,
            true,
            -0x8000_0000_0000_0000,
            0x7fff_ffff_ffff_ffff,
            "int64",
        ) {
            Ok(n) => Ok(FieldValue::I64(n as i64)),
            Err(e) => Err(e),
        },
        ScalarKind::Uint32 => match consume_int(tok, field, false, 0, 0xffff_ffff, "uint32") {
            Ok(n) => Ok(FieldValue::U32(n as u32)),
            Err(e) => Err(e),
        },
        ScalarKind::Uint64 => match consume_int(
            tok,
            field,
            false,
            0,
            0xffff_ffff_ffff_ffff,
            "uint64",
        ) {
            Ok(n) => Ok(FieldValue::U64(n as u64)),
            Err(e) => Err(e),
        },
        ScalarKind::Float => {
            if tok.kind == TokenKind::Float || tok.kind == TokenKind::Int {
                Ok(FieldValue::Float(tok.value.clone()))
            } else {
                fail(tok, with_quoted("expected number for field ", field))
            }
        },
        ScalarKind::Double => {
            if tok.kind == TokenKind::Float || tok.kind == TokenKind::Int {
                Ok(FieldValue::Double(tok.value.clone()))
            } else {
                fail(tok, with_quoted("expected number for field ", field))
            }
        },
        ScalarKind::Bytes => {
            if tok.kind != TokenKind::Bytes {
                return fail(tok, with_quoted("expected bytes for field ", field));
            }
            let b = tok.value.as_str().as_bytes();
            if !base64_alphabet_ok(b) {
                return fail(tok, with_quoted("invalid base64 for field ", field));
            }
            Ok(FieldValue::Bytes(decode_base64(b)))
        },
        ScalarKind::Enum(e) => consume_enum(e, tok, field),
    }
}

/// The field already set in oneof `name`, among the (oneof, field) pairs
/// recorded so far, the first one recorded.
pub open spec fn set_in_oneof(set: Seq<(Seq<char>, Seq<char>)>, name: Seq<char>, i: int) -> Option<Seq<char>>
    decreases set.len() - i,
{
    if i < 0 || i >= set.len() {
        None
    } else if set[i].0 == name {
        Some(set[i].1)
    } else {
        set_in_oneof(set, name, i + 1)
    }
}

/// The recorded (oneof, field) pairs as values.
pub open spec fn oneof_model(set: Seq<(String, String)>) -> Seq<(Seq<char>, Seq<char>)> {
    Seq::new(set.len(), |j: int| (set[j].0@, set[j].1@))
}

/// The error for a second field set in one oneof.
pub open spec fn oneof_conflict_message(oneof: Seq<char>, field: Seq<char>, prev: Seq<char>) -> Seq<char> {
    "oneof "@ + quote(oneof) + ": field "@ + quote(field) + " conflicts with already-set field "@
        + quote(prev)
}

/// The field recorded for oneof `name`.
fn find_set(set: &Vec<(String, String)>, name: &str) -> (r: Option<String>)
    ensures
        match set_in_oneof(oneof_model(set@), name@, 0) {
            Some(p) => r matches Some(x) && x@ == p,
            None => r is None,
        },
{
    let mut i: usize = 0;
    while i < set.len()
        invariant
            i <= set@.len(),
            set_in_oneof(oneof_model(set@), name@, 0) == set_in_oneof(oneof_model(set@), name@, i as int),
        decreases set@.len() - i,
    {
        if str_is(&set[i].0, name) {
            return Some(set[i].1.clone());
        }
        i = i + 1;
    }
    None
}

/// Record that `field`, a member of oneof `oneof` when it has one, is set:
/// a second member of one oneof is an error at `pos`, and leaves the record
/// as it was.
pub fn check_oneof(oneof: Option<&str>, field: &str, set: &mut Vec<(String, String)>, pos: Position) -> (r:
    Result<(), PxfError>)
    ensures
        match oneof {
            None => r is Ok && final(set)@ == old(set)@,
            Some(o) => match set_in_oneof(oneof_model(old(set)@), o@, 0) {
                Some(prev) => r matches Err(e) && e.pos == pos && e.msg@ == oneof_conflict_message(
                    o@,
                    field@,
                    prev,
                ) && final(set)@ == old(set)@,
                None => r is Ok && oneof_model(final(set)@) == oneof_model(old(set)@).push((o@, field@)),
            },
        },
{
    match oneof {
        None => Ok(()),
        Some(o) => match find_set(set, o) {
            Some(prev) => {
                let mut m = with_quoted("oneof ", o);
                push_str(&mut m, ": field ");
                push_str(&mut m, "\"");
                push_str(&mut m, field);
                push_str(&mut m, "\"");
                push_str(&mut m, " conflicts with already-set field ");
                push_str(&mut m, "\"");
                push_str(&mut m, prev.as_str());
                push_str(&mut m, "\"");
                Err(PxfError::new(pos, m))
            },
            None => {
                set.push((owned(o), owned(field)));
                assert(oneof_model(set@) =~= oneof_model(old(set)@).push((o@, field@)));
                Ok(())
            },
        },
    }
}

// ---------------------------------------------------------------- maps of scalars
/// A map key as values, in the shape of a scalar.
pub open spec fn key_model(k: MapKey) -> ValueModel {
    match k {
        MapKey::String(s) => ValueModel::String(s@),
        MapKey::Bool(b) => ValueModel::Bool(b),
        MapKey::I32(n) => ValueModel::I32(n as int),
        MapKey::I64(n) => ValueModel::I64(n as int),
        MapKey::U32(n) => ValueModel::U32(n as int),
        MapKey::U64(n) => ValueModel::U64(n as int),
    }
}

/// How a bool map key may be written.
pub open spec fn bool_key_help() -> Seq<char> {
    "a bool key is true, false, 0, 1, \"true\" or \"false\""@
}

/// What the key token `t` of map field `field`, with key kind `kk`, reads
/// as. A bool key is written `true`, `false`, `1` or `0`, or quoted as
/// `"true"` or `"false"`; the keywords `true` and `false` are no string
/// key (the string is written quoted); other kinds read the key's text.
pub open spec fn key_outcome(kk: MapKeyKind, t: Token, field: Seq<char>) -> Result<
    ValueModel,
    (Position, Seq<char>),
> {
    let s = t.value@;
    match kk {
        MapKeyKind::String => if t.kind == TokenKind::Bool {
            Err((
                t.pos,
                "invalid string map key "@ + s + " for field "@ + quote(field) + "; write "@ + quote(s)
                    + " for the string"@,
            ))
        } else {
            Ok(ValueModel::String(s))
        },
        MapKeyKind::Bool => if t.kind == TokenKind::String {
            if s == "true"@ {
                Ok(ValueModel::Bool(true))
            } else if s == "false"@ {
                Ok(ValueModel::Bool(false))
            } else {
                Err((
                    t.pos,
                    "invalid bool map key "@ + quote(s) + " for field "@ + quote(field) + "; "@
                        + bool_key_help(),
                ))
            }
        } else if s == "true"@ || s == "1"@ {
            Ok(ValueModel::Bool(true))
        } else if s == "false"@ || s == "0"@ {
            Ok(ValueModel::Bool(false))
        } else {
            Err((
                t.pos,
                "invalid bool map key "@ + s + " for field "@ + quote(field) + "; "@ + bool_key_help(),
            ))
        },
        _ => match map_key_outcome(kk, s) {
            Ok(k) => Ok(key_model(k)),
            Err(m) => Err((t.pos, m)),
        },
    }
}

/// One `key: value` entry at token `i`: the key, the value, and where the
/// next entry starts; or where and why it fails.
pub open spec fn map_entry_at(
    toks: Seq<Token>,
    i: int,
    kk: MapKeyKind,
    vk: ScalarKind,
    field: Seq<char>,
) -> Result<(ValueModel, ValueModel, int), (Position, Seq<char>)> {
    let t = toks[i];
    let c = toks[i + 1];
    let v = toks[i + 2];
    if !(t.kind == TokenKind::Ident || t.kind == TokenKind::String || t.kind == TokenKind::Int
        || t.kind == TokenKind::Bool) {
        Err((t.pos, "expected map key, got "@ + token_kind_name(t.kind)))
    } else if c.kind == TokenKind::Equals {
        Err((c.pos, "unexpected '=' in map, use ':' for map entries"@))
    } else if c.kind != TokenKind::Colon {
        Err((c.pos, "expected ':' after map key, got "@ + token_kind_name(c.kind)))
    } else {
        match key_outcome(kk, t, field) {
            Err(e) => Err(e),
            Ok(k) => if v.kind == TokenKind::Null {
                Err((v.pos, "null is not allowed as map value in field "@ + quote(field)))
            } else {
                match scalar_outcome(vk, v, field) {
                    Ok(x) => Ok((k, x, i + 3)),
                    Err(m) => Err((v.pos, m)),
                }
            },
        }
    }
}

/// Where key `k` stands among the entries, from position `j` on.
pub open spec fn key_pos(es: Seq<(ValueModel, ValueModel)>, k: ValueModel, j: int) -> Option<int>
    decreases es.len() - j,
{
    if j < 0 || j >= es.len() {
        None
    } else if es[j].0 == k {
        Some(j)
    } else {
        key_pos(es, k, j + 1)
    }
}

/// The entries with `k` set to `v`: the value of an entry with that key
/// replaced, or a new entry at the end.
pub open spec fn map_put(es: Seq<(ValueModel, ValueModel)>, k: ValueModel, v: ValueModel) -> Seq<
    (ValueModel, ValueModel),
> {
    match key_pos(es, k, 0) {
        Some(j) => es.update(j, (k, v)),
        None => es.push((k, v)),
    }
}

/// The entries from token `i` up to the closing `}`, each set into `acc` in
/// the order written, so that a key written twice keeps its later value;
/// and the token after the `}`. Or where and why they fail.
pub open spec fn map_body(
    toks: Seq<Token>,
    i: int,
    kk: MapKeyKind,
    vk: ScalarKind,
    field: Seq<char>,
    acc: Seq<(ValueModel, ValueModel)>,
) -> Result<(Seq<(ValueModel, ValueModel)>, int), (Position, Seq<char>)>
    decreases toks.len() - i,
{
    if i < 0 || i >= toks.len() {
        Err((Position { line: 0, column: 0, offset: 0 }, Seq::empty()))
    } else if toks[i].kind == TokenKind::RBrace {
        Ok((acc, i + 1))
    } else if toks[i].kind == TokenKind::Eof {
        Err((toks[i].pos, "expected '}', got EOF"@))
    } else {
        match map_entry_at(toks, i, kk, vk, field) {
            Err(e) => Err(e),
            Ok((k, v, n)) => if n <= i || n > toks.len() {
                Err((toks[i].pos, Seq::empty()))
            } else {
                map_body(toks, n, kk, vk, field, map_put(acc, k, v))
            },
        }
    }
}

/// A map field of field `field` whose value starts at token `i`, at
/// nesting `depth`: a `{`, then `key: value` entries up to the `}`.
pub open spec fn map_outcome(
    toks: Seq<Token>,
    i: int,
    depth: int,
    kk: MapKeyKind,
    vk: ScalarKind,
    field: Seq<char>,
) -> Result<(Seq<(ValueModel, ValueModel)>, int), (Position, Seq<char>)> {
    if toks[i].kind != TokenKind::LBrace {
        Err((toks[i].pos, "expected '{' for map field "@ + quote(field)))
    } else if depth >= MAX_NESTING_DEPTH {
        Err((toks[i].pos, "nesting depth exceeds MaxNestingDepth (100)"@))
    } else {
        map_body(toks, i + 1, kk, vk, field, Seq::empty())
    }
}

/// The entries of a decoded map as values.
pub open spec fn entries_model(v: Seq<(MapKey, FieldValue)>) -> Seq<(ValueModel, ValueModel)> {
    Seq::new(v.len(), |j: int| (key_model(v[j].0), value_model(v[j].1)))
}

/// A token stream as the lexer ends it: with one `EOF`, at the end.
pub open spec fn ends_with_eof(toks: Seq<Token>) -> bool {
    &&& toks.len() > 0
    &&& toks.last().kind == TokenKind::Eof
    &&& forall|j: int| 0 <= j < toks.len() - 1 ==> (#[trigger] toks[j]).kind != TokenKind::Eof
}

fn fail_at<T>(pos: Position, msg: String) -> (r: Result<T, PxfError>)
    ensures
        r matches Err(e) && e.pos == pos && e.msg == msg,
{
    Err(PxfError::new(pos, msg))
}

/// Whether two map keys are the same key.
fn same_key(a: &MapKey, b: &MapKey) -> (r: bool)
    ensures
        r == (key_model(*a) == key_model(*b)),
{
    match (a, b) {
        (MapKey::String(x), MapKey::String(y)) => x.eq(y),
        (MapKey::Bool(x), MapKey::Bool(y)) => *x == *y,
        (MapKey::I32(x), MapKey::I32(y)) => *x == *y,
        (MapKey::I64(x), MapKey::I64(y)) => *x == *y,
        (MapKey::U32(x), MapKey::U32(y)) => *x == *y,
        (MapKey::U64(x), MapKey::U64(y)) => *x == *y,
        _ => false,
    }
}

/// Set `key` to `value` among the entries, as [`map_put`] says.
fn put_entry(out: &mut Vec<(MapKey, FieldValue)>, key: MapKey, value: FieldValue)
    ensures
        entries_model(final(out)@) == map_put(entries_model(old(out)@), key_model(key), value_model(value)),
{
    let ghost es = entries_model(out@);
    let ghost k = key_model(key);
    let mut j: usize = 0;
    while j < out.len()
        invariant
            j <= out@.len(),
            es == entries_model(out@),
            k == key_model(key),
            es == entries_model(old(out)@),
            key_pos(es, k, 0) == key_pos(es, k, j as int),
        decreases out@.len() - j,
    {
        assert(es[j as int] == (key_model(out@[j as int].0), value_model(out@[j as int].1)));
        let same = same_key(&out[j].0, &key);
        if same {
            let ghost v = value_model(value);
            out.set(j, (key, value));
            assert(entries_model(out@) =~= es.update(j as int, (k, v)));
            return;
        }
        j = j + 1;
    }
    out.push((key, value));
    assert(entries_model(out@) =~= es.push((k, value_model(value))));
}

/// `x` in quotes.
fn quoted_copy(x: &str) -> (r: String)
    ensures
        r@ == quote(x@),
{
    let mut r = String::new();
    push_str(&mut r, "\"");
    push_str(&mut r, x);
    push_str(&mut r, "\"");
    r
}

/// Read the key token `t` of map field `field` as [`key_outcome`] says.
fn decode_key(kk: &MapKeyKind, t: &Token, field: &str) -> (r: Result<MapKey, PxfError>)
    ensures
        match key_outcome(*kk, *t, field@) {
            Ok(k) => r matches Ok(x) && key_model(x) == k,
            Err((p, m)) => r matches Err(e) && e.pos == p && e.msg@ == m,
        },
{
    match kk {
        MapKeyKind::String => {
            if t.kind == TokenKind::Bool {
                let mut m = owned("invalid string map key ");
                push_str(&mut m, t.value.as_str());
                let q = cat_quoted(" for field ", field, "; write ");
                push_str(&mut m, q.as_str());
                let q2 = quoted_copy(t.value.as_str());
                push_str(&mut m, q2.as_str());
                push_str(&mut m, " for the string");
                assert(m@ =~= "invalid string map key "@ + t.value@ + " for field "@ + quote(field@)
                    + "; write "@ + quote(t.value@) + " for the string"@);
                return fail_at(t.pos, m);
            }
            Ok(MapKey::String(t.value.clone()))
        },
        MapKeyKind::Bool => {
            let s = &t.value;
            if t.kind == TokenKind::String {
                if str_is(s, "true") {
                    return Ok(MapKey::Bool(true));
                }
                if str_is(s, "false") {
                    return Ok(MapKey::Bool(false));
                }
                let mut m = cat_quoted("invalid bool map key ", s.as_str(), " for field ");
                let q = quoted_copy(field);
                push_str(&mut m, q.as_str());
                push_str(&mut m, "; ");
                push_str(&mut m, "a bool key is true, false, 0, 1, \"true\" or \"false\"");
                assert(m@ =~= "invalid bool map key "@ + quote(s@) + " for field "@ + quote(field@)
                    + "; "@ + bool_key_help());
                return fail_at(t.pos, m);
            }
            if str_is(s, "true") || str_is(s, "1") {
                return Ok(MapKey::Bool(true));
            }
            if str_is(s, "false") || str_is(s, "0") {
                return Ok(MapKey::Bool(false));
            }
            let mut m = owned("invalid bool map key ");
            push_str(&mut m, s.as_str());
            let q = cat_quoted(" for field ", field, "; ");
            push_str(&mut m, q.as_str());
            push_str(&mut m, "a bool key is true, false, 0, 1, \"true\" or \"false\"");
            assert(m@ =~= "invalid bool map key "@ + s@ + " for field "@ + quote(field@) + "; "@
                + bool_key_help());
            fail_at(t.pos, m)
        },
        _ => decode_map_key(kk, t.value.clone(), t.pos),
    }
}

/// The value of a map field whose values are scalars or enum values, read
/// from the significant tokens `toks` (comments and newlines left out)
/// starting at `i`, at nesting `depth`: each key read as [`key_outcome`]
/// reads it and each value as [`consume_scalar`] reads it, set in the order
/// written so that a key written twice keeps its later value; and the
/// position after the closing `}`.
pub fn decode_scalar_map(
    toks: &[Token],
    i: usize,
    depth: usize,
    kk: &MapKeyKind,
    vk: &ScalarKind,
    field: &str,
) -> (r: Result<(Vec<(MapKey, FieldValue)>, usize), PxfError>)
    requires
        ends_with_eof(toks@),
        i < toks@.len(),
    ensures
        match map_outcome(toks@, i as int, depth as int, *kk, *vk, field@) {
            Ok((es, e)) => r matches Ok((v, n)) && n == e && entries_model(v@) == es,
            Err((p, m)) => r matches Err(e) && e.pos == p && e.msg@ == m,
        },
        r matches Ok((_, n)) ==> i + 1 < n < toks@.len(),
{
    if toks[i].kind != TokenKind::LBrace {
        return fail_at(toks[i].pos, with_quoted("expected '{' for map field ", field));
    }
    if depth >= MAX_NESTING_DEPTH {
        return fail_at(toks[i].pos, owned("nesting depth exceeds MaxNestingDepth (100)"));
    }
    let ghost goal = map_body(toks@, i + 1, *kk, *vk, field@, Seq::empty());
    let mut out: Vec<(MapKey, FieldValue)> = Vec::new();
    let mut k: usize = i + 1;
    assert(entries_model(out@) =~= Seq::<(ValueModel, ValueModel)>::empty());
    loop
        invariant
            ends_with_eof(toks@),
            i < k < toks@.len(),
            toks@[i as int].kind == TokenKind::LBrace,
            depth < MAX_NESTING_DEPTH,
            goal == map_body(toks@, i + 1, *kk, *vk, field@, Seq::empty()),
            goal == map_body(toks@, k as int, *kk, *vk, field@, entries_model(out@)),
        decreases toks@.len() - k,
    {
        let t = &toks[k];
        if t.kind == TokenKind::RBrace {
            return Ok((out, k + 1));
        }
        if t.kind == TokenKind::Eof {
            return fail_at(t.pos, owned("expected '}', got EOF"));
        }
        assert(k + 1 < toks@.len());
        if !(t.kind == TokenKind::Ident || t.kind == TokenKind::String || t.kind == TokenKind::Int
            || t.kind == TokenKind::Bool) {
            let mut m = owned("expected map key, got ");
            push_str(&mut m, t.kind.name());
            return fail_at(t.pos, m);
        }
        let c = &toks[k + 1];
        if c.kind == TokenKind::Equals {
            return fail_at(c.pos, owned("unexpected '=' in map, use ':' for map entries"));
        }
        if c.kind != TokenKind::Colon {
            let mut m = owned("expected ':' after map key, got ");
            push_str(&mut m, c.kind.name());
            return fail_at(c.pos, m);
        }
        assert(k + 2 < toks@.len());
        let key = match decode_key(kk, t, field) {
            Ok(key) => key,
            Err(e) => {
                return Err(e);
            },
        };
        let v = &toks[k + 2];
        if v.kind == TokenKind::Null {
            return fail_at(v.pos, with_quoted("null is not allowed as map value in field ", field));
        }
        let value = match consume_scalar(vk, v, field) {
            Ok(x) => x,
            Err(e) => {
                return Err(e);
            },
        };
        proof {
            assert(map_entry_at(toks@, k as int, *kk, *vk, field@) == Ok::<
                (ValueModel, ValueModel, int),
                (Position, Seq<char>),
            >((key_model(key), value_model(value), k + 3)));
        }
        put_entry(&mut out, key, value);
        k = k + 3;
    }
}


// ---------------------------------------------------------------- lists of scalars
/// The elements from token `i` up to the closing `]`, each followed by an
/// optional comma, and the token after the `]`; or where and why they fail.
pub open spec fn list_body(toks: Seq<Token>, i: int, vk: ScalarKind, field: Seq<char>) -> Result<
    (Seq<ValueModel>, int),
    (Position, Seq<char>),
>
    decreases toks.len() - i,
{
    if i < 0 || i + 1 >= toks.len() {
        if 0 <= i < toks.len() && toks[i].kind == TokenKind::RBracket {
            Ok((Seq::empty(), i + 1))
        } else if 0 <= i < toks.len() {
            Err((toks[i].pos, "expected ']', got "@ + token_kind_name(toks[i].kind)))
        } else {
            Err((Position { line: 0, column: 0, offset: 0 }, Seq::empty()))
        }
    } else if toks[i].kind == TokenKind::RBracket {
        Ok((Seq::empty(), i + 1))
    } else if toks[i].kind == TokenKind::Eof {
        Err((toks[i].pos, "expected ']', got "@ + token_kind_name(toks[i].kind)))
    } else if toks[i].kind == TokenKind::Null {
        Err((toks[i].pos, "null is not allowed in repeated field "@ + quote(field)))
    } else {
        match scalar_outcome(vk, toks[i], field) {
            Err(m) => Err((toks[i].pos, m)),
            Ok(x) => {
                let n = if toks[i + 1].kind == TokenKind::Comma {
                    i + 2
                } else {
                    i + 1
                };
                match list_body(toks, n, vk, field) {
                    Ok((rest, e)) => Ok((seq![x] + rest, e)),
                    Err(e) => Err(e),
                }
            },
        }
    }
}

/// A repeated field of field `field` whose value starts at token `i`, at
/// nesting `depth`: a `[`, then the elements up to the `]`.
pub open spec fn list_outcome(toks: Seq<Token>, i: int, depth: int, vk: ScalarKind, field: Seq<char>) -> Result<
    (Seq<ValueModel>, int),
    (Position, Seq<char>),
> {
    if toks[i].kind != TokenKind::LBracket {
        Err((toks[i].pos, "expected '[' for repeated field "@ + quote(field)))
    } else if depth >= MAX_NESTING_DEPTH {
        Err((toks[i].pos, "nesting depth exceeds MaxNestingDepth (100)"@))
    } else {
        list_body(toks, i + 1, vk, field)
    }
}

/// `acc` before the elements of `r`.
pub open spec fn list_after(acc: Seq<ValueModel>, r: Result<(Seq<ValueModel>, int), (Position, Seq<char>)>) -> Result<
    (Seq<ValueModel>, int),
    (Position, Seq<char>),
> {
    match r {
        Ok((rest, e)) => Ok((acc + rest, e)),
        Err(e) => Err(e),
    }
}

/// The value of a repeated field of scalars or enum values, read from the
/// significant tokens `toks` starting at `i`, at nesting `depth`: the
/// elements in order, each read as [`consume_scalar`] reads it, and the
/// position after the closing `]`.
pub fn decode_scalar_list(toks: &[Token], i: usize, depth: usize, vk: &ScalarKind, field: &str) -> (r:
    Result<(Vec<FieldValue>, usize), PxfError>)
    requires
        ends_with_eof(toks@),
        i < toks@.len(),
    ensures
        match list_outcome(toks@, i as int, depth as int, *vk, field@) {
            Ok((es, e)) => r matches Ok((v, n)) && n == e && v@.len() == es.len() && forall|j: int|
                0 <= j < es.len() ==> value_model(#[trigger] v@[j]) == es[j],
            Err((p, m)) => r matches Err(e) && e.pos == p && e.msg@ == m,
        },
        r matches Ok((_, n)) ==> i + 1 < n < toks@.len(),
{
    if toks[i].kind != TokenKind::LBracket {
        return fail_at(toks[i].pos, with_quoted("expected '[' for repeated field ", field));
    }
    if depth >= MAX_NESTING_DEPTH {
        return fail_at(toks[i].pos, owned("nesting depth exceeds MaxNestingDepth (100)"));
    }
    let ghost goal = list_body(toks@, i + 1, *vk, field@);
    let mut out: Vec<FieldValue> = Vec::new();
    let mut k: usize = i + 1;
    let ghost mut acc: Seq<ValueModel> = Seq::empty();
    assert(goal == list_after(acc, list_body(toks@, k as int, *vk, field@))) by {
        match list_body(toks@, k as int, *vk, field@) {
            Ok((rest, e)) => {
                assert(acc + rest =~= rest);
            },
            Err(_) => {},
        }
    }
    loop
        invariant
            ends_with_eof(toks@),
            i < k < toks@.len(),
            toks@[i as int].kind == TokenKind::LBracket,
            depth < MAX_NESTING_DEPTH,
            goal == list_body(toks@, i + 1, *vk, field@),
            goal == list_after(acc, list_body(toks@, k as int, *vk, field@)),
            out@.len() == acc.len(),
            forall|j: int| 0 <= j < acc.len() ==> value_model(#[trigger] out@[j]) == acc[j],
        decreases toks@.len() - k,
    {
        let t = &toks[k];
        if t.kind == TokenKind::RBracket {
            assert(acc + Seq::<ValueModel>::empty() =~= acc);
            return Ok((out, k + 1));
        }
        if t.kind == TokenKind::Eof {
            let mut m = owned("expected ']', got ");
            push_str(&mut m, t.kind.name());
            return fail_at(t.pos, m);
        }
        assert(k + 1 < toks@.len());
        if t.kind == TokenKind::Null {
            return fail_at(t.pos, with_quoted("null is not allowed in repeated field ", field));
        }
        let value = match consume_scalar(vk, t, field) {
            Ok(x) => x,
            Err(e) => {
                return Err(e);
            },
        };
        let next = if toks[k + 1].kind == TokenKind::Comma {
            k + 2
        } else {
            k + 1
        };
        proof {
            let x = value_model(value);
            match list_body(toks@, next as int, *vk, field@) {
                Ok((rest, e)) => {
                    assert(acc + (seq![x] + rest) =~= acc.push(x) + rest);
                },
                Err(_) => {},
            }
            acc = acc.push(x);
        }
        out.push(value);
        k = next;
    }
}

// ---------------------------------------------------------------- a field's value
/// How a field that is not of a message type holds its value: one scalar,
/// a repeated list of them, or a map from keys to them.
#[derive(Debug, Clone)]
pub enum FieldShape {
    Single(ScalarKind),
    List(ScalarKind),
    MapOf(MapKeyKind, ScalarKind),
}

/// A decoded field value of one of the shapes of [`FieldShape`].
#[derive(Debug, Clone)]
pub enum DecodedValue {
    Single(FieldValue),
    List(Vec<FieldValue>),
    MapOf(Vec<(MapKey, FieldValue)>),
}

/// Decode the value of field `field`, of shape `shape`, that starts at
/// token `i` of the significant tokens `toks`, at nesting `depth`: a map or
/// a list as [`decode_scalar_map`] and [`decode_scalar_list`] read them, a
/// single value as [`consume_scalar`] reads it. Gives the value and the
/// position after it.
pub fn decode_field_value(toks: &[Token], i: usize, depth: usize, shape: &FieldShape, field: &str) -> (r:
    Result<(DecodedValue, usize), PxfError>)
    requires
        ends_with_eof(toks@),
        i < toks@.len(),
    ensures
        match *shape {
            FieldShape::Single(k) => match scalar_outcome(k, toks@[i as int], field@) {
                Ok(v) => r matches Ok((DecodedValue::Single(x), n)) && value_model(x) == v && n == i
                    + 1,
                Err(m) => r matches Err(e) && e.pos == toks@[i as int].pos && e.msg@ == m,
            },
            FieldShape::List(k) => match list_outcome(toks@, i as int, depth as int, k, field@) {
                Ok((es, e)) => r matches Ok((DecodedValue::List(v), n)) && n == e && v@.len()
                    == es.len() && forall|j: int|
                    0 <= j < es.len() ==> value_model(#[trigger] v@[j]) == es[j],
                Err((p, m)) => r matches Err(e) && e.pos == p && e.msg@ == m,
            },
            FieldShape::MapOf(kk, vk) => match map_outcome(toks@, i as int, depth as int, kk, vk, field@) {
                Ok((es, e)) => r matches Ok((DecodedValue::MapOf(v), n)) && n == e && entries_model(v@)
                    == es,
                Err((p, m)) => r matches Err(e) && e.pos == p && e.msg@ == m,
            },
        },
        r matches Ok((_, n)) ==> i < n < toks@.len(),
{
    match shape {
        FieldShape::MapOf(kk, vk) => match decode_scalar_map(toks, i, depth, kk, vk, field) {
            Ok((v, n)) => Ok((DecodedValue::MapOf(v), n)),
            Err(e) => Err(e),
        },
        FieldShape::List(k) => match decode_scalar_list(toks, i, depth, k, field) {
            Ok((v, n)) => Ok((DecodedValue::List(v), n)),
            Err(e) => Err(e),
        },
        FieldShape::Single(k) => match consume_scalar(k, &toks[i], field) {
            Ok(x) => {
                assert(toks@[i as int].kind != TokenKind::Eof) by {
                    assert(toks@[i as int] == toks[i as int]);
                }
                assert(i + 1 < toks@.len());
                Ok((DecodedValue::Single(x), i + 1))
            },
            Err(e) => Err(e),
        },
    }
}

// ---------------------------------------------------------------- skipping
/// Where skipping ends from token `i`, inside `depth` open brackets of the
/// pair `open`/`close`: just past the token that closes the outermost one,
/// or at the `EOF`.
pub open spec fn skip_nested(toks: Seq<Token>, i: int, open: TokenKind, close: TokenKind, depth: nat) -> int
    decreases toks.len() - i,
{
    if i < 0 || i >= toks.len() || depth == 0 || toks[i].kind == TokenKind::Eof {
        i
    } else {
        let d = if toks[i].kind == open {
            depth + 1
        } else if toks[i].kind == close {
            (depth - 1) as nat
        } else {
            depth
        };
        skip_nested(toks, i + 1, open, close, d)
    }
}

/// Where the value starting at token `i` ends when it is skipped: a block
/// or a list up to its matching close, anything else one token; the `EOF`
/// is never passed.
pub open spec fn skip_end(toks: Seq<Token>, i: int) -> int {
    if toks[i].kind == TokenKind::LBrace {
        skip_nested(toks, i + 1, TokenKind::LBrace, TokenKind::RBrace, 1)
    } else if toks[i].kind == TokenKind::LBracket {
        skip_nested(toks, i + 1, TokenKind::LBracket, TokenKind::RBracket, 1)
    } else if toks[i].kind == TokenKind::Eof {
        i
    } else {
        i + 1
    }
}

fn skip_nested_from(toks: &[Token], i: usize, open: TokenKind, close: TokenKind) -> (r: usize)
    requires
        ends_with_eof(toks@),
        i < toks@.len(),
    ensures
        r == skip_nested(toks@, i as int, open, close, 1),
        i <= r < toks@.len(),
{
    let mut k = i;
    let mut depth: usize = 1;
    while depth > 0 && toks[k].kind != TokenKind::Eof
        invariant
            ends_with_eof(toks@),
            i <= k < toks@.len(),
            depth <= k - i + 1,
            skip_nested(toks@, i as int, open, close, 1) == skip_nested(
                toks@,
                k as int,
                open,
                close,
                depth as nat,
            ),
        decreases toks@.len() - k,
    {
        assert(k + 1 < toks@.len());
        if toks[k].kind == open {
            depth = depth + 1;
        } else if toks[k].kind == close {
            depth = depth - 1;
        }
        k = k + 1;
    }
    k
}

/// Skip the value starting at token `i`, as an unknown field's value is
/// skipped when unknown fields are discarded: gives the position after it.
pub fn skip_value(toks: &[Token], i: usize) -> (r: usize)
    requires
        ends_with_eof(toks@),
        i < toks@.len(),
    ensures
        r == skip_end(toks@, i as int),
        i <= r < toks@.len(),
{
    if toks[i].kind == TokenKind::LBrace {
        skip_nested_from(toks, i + 1, TokenKind::LBrace, TokenKind::RBrace)
    } else if toks[i].kind == TokenKind::LBracket {
        skip_nested_from(toks, i + 1, TokenKind::LBracket, TokenKind::RBracket)
    } else if toks[i].kind == TokenKind::Eof {
        i
    } else {
        i + 1
    }
}

// ---------------------------------------------------------------- messages
/// What a field of a message holds: a value of a shape in [`FieldShape`],
/// one message of the type at a position of the schema, or a repeated list
/// of such messages.
#[derive(Debug, Clone)]
pub enum FieldType {
    Value(FieldShape),
    Message(usize),
    Messages(usize),
}

/// A field of a message type: its name, what it holds, the oneof it is a
/// member of, if any, and whether it is required.
#[derive(Debug, Clone)]
pub struct SchemaField {
    pub name: String,
    pub kind: FieldType,
    pub oneof: Option<String>,
    /// The field carries `(pxf.required) = true`.
    pub required: bool,
    /// The field's `(pxf.default)` text, if any.
    pub default: Option<String>,
}

/// A message type with its fields.
#[derive(Debug, Clone)]
pub struct SchemaMessage {
    pub full_name: String,
    pub fields: Vec<SchemaField>,
}

/// The message types a document is decoded against; a field of message
/// type names its type by position.
#[derive(Debug, Clone)]
pub struct Schema {
    pub messages: Vec<SchemaMessage>,
}

/// Every message type a field names is in the schema.
pub open spec fn schema_ok(sc: Schema) -> bool {
    forall|m: int, f: int|
        0 <= m < sc.messages@.len() && 0 <= f < sc.messages@[m].fields@.len() ==> match (
        #[trigger] sc.messages@[m].fields@[f]).kind {
            FieldType::Value(_) => true,
            FieldType::Message(t) => t < sc.messages@.len(),
            FieldType::Messages(t) => t < sc.messages@.len(),
        }
}

/// What one decoding step recorded.
#[derive(Debug, Clone)]
pub enum NodeData {
    /// A field set to a value.
    Value(DecodedValue),
    /// A field written `null`.
    Null,
    /// A field set to a fresh message; the nodes whose parent is this one
    /// are its fields.
    Message,
    /// A repeated message field set to a list; the nodes whose parent is
    /// this one are its elements, in order.
    MessageList,
    /// One element of a repeated message field; the nodes whose parent is
    /// this one are its fields.
    Element,
}

/// One record of a decoded document: the node of the message it belongs to
/// (`None` for the top-level message), the field's name, and what was set.
/// A field set twice in one message holds the later value.
#[derive(Debug, Clone)]
pub struct Node {
    pub parent: Option<usize>,
    pub field: String,
    /// The field's dotted path from the top-level message, through the
    /// single message fields it is nested in.
    pub path: String,
    pub data: NodeData,
}

pub enum DataModel {
    Single(ValueModel),
    List(Seq<ValueModel>),
    MapOf(Seq<(ValueModel, ValueModel)>),
    Null,
    Message,
    MessageList,
    Element,
}

pub struct NodeModel {
    pub parent: Option<usize>,
    pub field: Seq<char>,
    pub path: Seq<char>,
    pub data: DataModel,
}

pub open spec fn decoded_model(d: DecodedValue) -> DataModel {
    match d {
        DecodedValue::Single(x) => DataModel::Single(value_model(x)),
        DecodedValue::List(v) => DataModel::List(Seq::new(v@.len(), |j: int| value_model(v@[j]))),
        DecodedValue::MapOf(v) => DataModel::MapOf(entries_model(v@)),
    }
}

pub open spec fn node_model(n: Node) -> NodeModel {
    NodeModel {
        parent: n.parent,
        field: n.field@,
        path: n.path@,
        data: match n.data {
            NodeData::Value(d) => decoded_model(d),
            NodeData::Null => DataModel::Null,
            NodeData::Message => DataModel::Message,
            NodeData::MessageList => DataModel::MessageList,
            NodeData::Element => DataModel::Element,
        },
    }
}

pub open spec fn log_model(v: Seq<Node>) -> Seq<NodeModel> {
    Seq::new(v.len(), |j: int| node_model(v[j]))
}

pub open spec fn mk_node(parent: Option<usize>, field: Seq<char>, path: Seq<char>, data: DataModel) -> NodeModel {
    NodeModel { parent, field, path, data }
}

/// The value of a non-message field at token `i`, as a record's data.
pub open spec fn value_outcome(toks: Seq<Token>, i: int, depth: int, shape: FieldShape, field: Seq<char>) -> Result<
    (DataModel, int),
    (Position, Seq<char>),
> {
    match shape {
        FieldShape::Single(k) => match scalar_outcome(k, toks[i], field) {
            Ok(v) => Ok((DataModel::Single(v), i + 1)),
            Err(m) => Err((toks[i].pos, m)),
        },
        FieldShape::List(k) => match list_outcome(toks, i, depth, k, field) {
            Ok((es, e)) => Ok((DataModel::List(es), e)),
            Err(x) => Err(x),
        },
        FieldShape::MapOf(kk, vk) => match map_outcome(toks, i, depth, kk, vk, field) {
            Ok((es, e)) => Ok((DataModel::MapOf(es), e)),
            Err(x) => Err(x),
        },
    }
}

/// The first field of `fs` named `name`, from position `j` on.
pub open spec fn field_index(fs: Seq<SchemaField>, name: Seq<char>, j: int) -> Option<int>
    decreases fs.len() - j,
{
    if j < 0 || j >= fs.len() {
        None
    } else if fs[j].name@ == name {
        Some(j)
    } else {
        field_index(fs, name, j + 1)
    }
}

/// The oneof record after setting field `f`, or the conflict's message.
pub open spec fn oneof_step(f: SchemaField, oneofs: Seq<(Seq<char>, Seq<char>)>) -> Result<
    Seq<(Seq<char>, Seq<char>)>,
    Seq<char>,
> {
    match f.oneof {
        None => Ok(oneofs),
        Some(o) => match set_in_oneof(oneofs, o@, 0) {
            Some(prev) => Err(oneof_conflict_message(o@, f.name@, prev)),
            None => Ok(oneofs.push((o@, f.name@))),
        },
    }
}

pub open spec fn depth_message() -> Seq<char> {
    "nesting depth exceeds MaxNestingDepth (100)"@
}

pub open spec fn no_pos() -> Position {
    Position { line: 0, column: 0, offset: 0 }
}

/// The fields of a message of type `mi`, decoded from token `i` at nesting
/// `depth`: inside a block up to its `}` (`in_block`), else up to the
/// `EOF`. `me` is the node of the message, `log` what was recorded before,
/// `oneofs` the oneof members set so far in this message. Gives the records
/// and the position after the fields, or where and why decoding fails.
pub open spec fn fields_spec(
    sc: Schema,
    mi: int,
    toks: Seq<Token>,
    i: int,
    depth: int,
    in_block: bool,
    discard: bool,
    me: Option<usize>,
    prefix: Seq<char>,
    log: Seq<NodeModel>,
    oneofs: Seq<(Seq<char>, Seq<char>)>,
) -> Result<(Seq<NodeModel>, int), (Position, Seq<char>)>
    decreases toks.len() - i,
{
    if i < 0 || i >= toks.len() {
        Err((no_pos(), Seq::empty()))
    } else {
        let t = toks[i];
        let msg = sc.messages@[mi];
        if in_block && t.kind == TokenKind::RBrace {
            Ok((log, i + 1))
        } else if t.kind == TokenKind::Eof {
            if in_block {
                Err((t.pos, "expected '}', got EOF"@))
            } else {
                Ok((log, i))
            }
        } else if !(t.kind == TokenKind::Ident || t.kind == TokenKind::String || t.kind
            == TokenKind::Int) {
            Err((
                t.pos,
                "expected identifier, string, or integer, got "@ + token_kind_name(t.kind) + " ("@
                    + quote(t.value@) + ")"@,
            ))
        } else {
            let nx = toks[i + 1];
            let key = t.value@;
            if (nx.kind == TokenKind::Equals || nx.kind == TokenKind::LBrace) && i + 3 > toks.len() {
                Err((no_pos(), Seq::empty()))
            } else if nx.kind == TokenKind::Equals {
                match field_index(msg.fields@, key, 0) {
                    None => if discard {
                        let e = skip_end(toks, i + 2);
                        if e <= i || e > toks.len() {
                            Err((no_pos(), Seq::empty()))
                        } else {
                            fields_spec(sc, mi, toks, e, depth, in_block, discard, me, prefix, log, oneofs)
                        }
                    } else {
                        Err((t.pos, "unknown field "@ + quote(key) + " in "@ + msg.full_name@))
                    },
                    Some(fi) => {
                        let f = msg.fields@[fi];
                        match oneof_step(f, oneofs) {
                            Err(m) => Err((t.pos, m)),
                            Ok(oo) => {
                                let v = toks[i + 2];
                                if v.kind == TokenKind::Null {
                                    fields_spec(
                                        sc,
                                        mi,
                                        toks,
                                        i + 3,
                                        depth,
                                        in_block,
                                        discard,
                                        me,
                                        prefix,
                                        log.push(mk_node(me, f.name@, prefix + f.name@, DataModel::Null)),
                                        oo,
                                    )
                                } else {
                                    match f.kind {
                                        FieldType::Value(shape) => match value_outcome(
                                            toks,
                                            i + 2,
                                            depth,
                                            shape,
                                            f.name@,
                                        ) {
                                            Err(x) => Err(x),
                                            Ok((d, e)) => if e <= i || e > toks.len() {
                                                Err((no_pos(), Seq::empty()))
                                            } else {
                                                fields_spec(
                                                    sc,
                                                    mi,
                                                    toks,
                                                    e,
                                                    depth,
                                                    in_block,
                                                    discard,
                                                    me,
                                                    prefix,
                                                    log.push(mk_node(me, f.name@, prefix + f.name@, d)),
                                                    oo,
                                                )
                                            },
                                        },
                                        FieldType::Message(sub) => if v.kind != TokenKind::LBrace {
                                            Err((v.pos, "expected '{' for message field "@ + quote(f.name@)))
                                        } else if depth >= MAX_NESTING_DEPTH {
                                            Err((toks[i + 3].pos, depth_message()))
                                        } else {
                                            match fields_spec(
                                                sc,
                                                sub as int,
                                                toks,
                                                i + 3,
                                                depth + 1,
                                                true,
                                                discard,
                                                Some(log.len() as usize),
                                                prefix + f.name@ + seq!['.'],
                                                log.push(mk_node(me, f.name@, prefix + f.name@, DataModel::Message)),
                                                Seq::empty(),
                                            ) {
                                                Err(x) => Err(x),
                                                Ok((l2, e)) => if e <= i || e > toks.len() {
                                                    Err((no_pos(), Seq::empty()))
                                                } else {
                                                    fields_spec(sc, mi, toks, e, depth, in_block, discard, me, prefix, l2, oo)
                                                },
                                            }
                                        },
                                        FieldType::Messages(sub) => if v.kind != TokenKind::LBracket {
                                            Err((v.pos, "expected '[' for repeated field "@ + quote(f.name@)))
                                        } else if depth >= MAX_NESTING_DEPTH {
                                            Err((v.pos, depth_message()))
                                        } else {
                                            match elements_spec(
                                                sc,
                                                sub as int,
                                                toks,
                                                i + 3,
                                                depth + 1,
                                                discard,
                                                log.len() as usize,
                                                f.name@,
                                                prefix,
                                                log.push(mk_node(me, f.name@, prefix + f.name@, DataModel::MessageList)),
                                            ) {
                                                Err(x) => Err(x),
                                                Ok((l2, e)) => if e <= i || e > toks.len() {
                                                    Err((no_pos(), Seq::empty()))
                                                } else {
                                                    fields_spec(sc, mi, toks, e, depth, in_block, discard, me, prefix, l2, oo)
                                                },
                                            }
                                        },
                                    }
                                }
                            },
                        }
                    },
                }
            } else if nx.kind == TokenKind::LBrace {
                match field_index(msg.fields@, key, 0) {
                    None => if discard {
                        let e = skip_nested(toks, i + 2, TokenKind::LBrace, TokenKind::RBrace, 1);
                        if e <= i || e > toks.len() {
                            Err((no_pos(), Seq::empty()))
                        } else {
                            fields_spec(sc, mi, toks, e, depth, in_block, discard, me, prefix, log, oneofs)
                        }
                    } else {
                        Err((t.pos, "unknown field "@ + quote(key) + " in "@ + msg.full_name@))
                    },
                    Some(fi) => {
                        let f = msg.fields@[fi];
                        match f.kind {
                            FieldType::Value(FieldShape::List(_)) => Err((
                                t.pos,
                                "repeated field "@ + quote(key) + " must use list syntax: "@ + key
                                    + " = [...]"@,
                            )),
                            FieldType::Messages(_) => Err((
                                t.pos,
                                "repeated field "@ + quote(key) + " must use list syntax: "@ + key
                                    + " = [...]"@,
                            )),
                            FieldType::Value(FieldShape::MapOf(_, _)) => Err((
                                t.pos,
                                "map field "@ + quote(key) + " must use assignment syntax: "@ + key
                                    + " = { ... }"@,
                            )),
                            FieldType::Value(FieldShape::Single(_)) => Err((
                                t.pos,
                                "field "@ + quote(key) + " is not a message type, cannot use block syntax"@,
                            )),
                            FieldType::Message(sub) => match oneof_step(f, oneofs) {
                                Err(m) => Err((t.pos, m)),
                                Ok(oo) => if depth >= MAX_NESTING_DEPTH {
                                    Err((toks[i + 2].pos, depth_message()))
                                } else {
                                    match fields_spec(
                                        sc,
                                        sub as int,
                                        toks,
                                        i + 2,
                                        depth + 1,
                                        true,
                                        discard,
                                        Some(log.len() as usize),
                                        prefix + f.name@ + seq!['.'],
                                        log.push(mk_node(me, f.name@, prefix + f.name@, DataModel::Message)),
                                        Seq::empty(),
                                    ) {
                                        Err(x) => Err(x),
                                        Ok((l2, e)) => if e <= i || e > toks.len() {
                                            Err((no_pos(), Seq::empty()))
                                        } else {
                                            fields_spec(sc, mi, toks, e, depth, in_block, discard, me, prefix, l2, oo)
                                        },
                                    }
                                },
                            },
                        }
                    },
                }
            } else if nx.kind == TokenKind::Colon {
                Err((t.pos, "unexpected ':' in message context, use '=' for field assignments"@))
            } else {
                Err((
                    nx.pos,
                    "expected '=', ':', or '{' after "@ + quote(key) + ", got "@ + token_kind_name(
                        nx.kind,
                    ),
                ))
            }
        }
    }
}

/// The elements of a repeated message field from token `k`, each a block
/// decoded as a message of type `mi` at nesting `depth` and followed by an
/// optional comma, up to the `]`. `lst` is the list's node.
pub open spec fn elements_spec(
    sc: Schema,
    mi: int,
    toks: Seq<Token>,
    k: int,
    depth: int,
    discard: bool,
    lst: usize,
    field: Seq<char>,
    prefix: Seq<char>,
    log: Seq<NodeModel>,
) -> Result<(Seq<NodeModel>, int), (Position, Seq<char>)>
    decreases toks.len() - k,
{
    if k < 0 || k >= toks.len() {
        Err((no_pos(), Seq::empty()))
    } else {
        let t = toks[k];
        if t.kind == TokenKind::RBracket {
            Ok((log, k + 1))
        } else if t.kind == TokenKind::Eof {
            Err((t.pos, "expected ']', got "@ + token_kind_name(t.kind)))
        } else if t.kind == TokenKind::Null {
            Err((t.pos, "null is not allowed in repeated field "@ + quote(field)))
        } else if t.kind != TokenKind::LBrace {
            Err((t.pos, "expected '{' for repeated message element"@))
        } else if depth >= MAX_NESTING_DEPTH {
            Err((toks[k + 1].pos, depth_message()))
        } else {
            match fields_spec(
                sc,
                mi,
                toks,
                k + 1,
                depth + 1,
                true,
                discard,
                Some(log.len() as usize),
                prefix,
                log.push(mk_node(Some(lst), field, prefix + field, DataModel::Element)),
                Seq::empty(),
            ) {
                Err(x) => Err(x),
                Ok((l2, e)) => if e <= k || e >= toks.len() {
                    Err((no_pos(), Seq::empty()))
                } else {
                    let n = if toks[e].kind == TokenKind::Comma {
                        e + 1
                    } else {
                        e
                    };
                    elements_spec(sc, mi, toks, n, depth, discard, lst, field, prefix, l2)
                },
            }
        }
    }
}

/// The path prefix of the fields of a message set at field `name`.
fn nested_prefix(prefix: &str, name: &str) -> (r: String)
    ensures
        r@ == prefix@ + name@ + seq!['.'],
{
    let mut r = concat(prefix, name);
    crate::text::push_char(&mut r, '.');
    r
}

/// The position of the first field of `msg` named `key`.
fn find_field(msg: &SchemaMessage, key: &String) -> (r: Option<usize>)
    ensures
        match field_index(msg.fields@, key@, 0) {
            Some(j) => r matches Some(x) && x as int == j,
            None => r is None,
        },
        r matches Some(j) ==> j < msg.fields@.len(),
{
    let mut j: usize = 0;
    while j < msg.fields.len()
        invariant
            j <= msg.fields@.len(),
            field_index(msg.fields@, key@, 0) == field_index(msg.fields@, key@, j as int),
        decreases msg.fields@.len() - j,
    {
        if msg.fields[j].name.eq(key) {
            return Some(j);
        }
        j = j + 1;
    }
    None
}

fn cat_quoted(a: &str, q: &str, b: &str) -> (r: String)
    ensures
        r@ == a@ + quote(q@) + b@,
{
    let mut m = with_quoted(a, q);
    push_str(&mut m, b);
    m
}

/// The error of a field written as a block that does not take one.
fn block_syntax_error(key: &String, kind: &FieldType) -> (r: String)
    ensures
        match *kind {
            FieldType::Value(FieldShape::List(_)) => r@ == "repeated field "@ + quote(key@)
                + " must use list syntax: "@ + key@ + " = [...]"@,
            FieldType::Messages(_) => r@ == "repeated field "@ + quote(key@) + " must use list syntax: "@
                + key@ + " = [...]"@,
            FieldType::Value(FieldShape::MapOf(_, _)) => r@ == "map field "@ + quote(key@)
                + " must use assignment syntax: "@ + key@ + " = { ... }"@,
            _ => r@ == "field "@ + quote(key@) + " is not a message type, cannot use block syntax"@,
        },
{
    match kind {
        FieldType::Value(FieldShape::List(_)) | FieldType::Messages(_) => {
            let mut m = cat_quoted("repeated field ", key.as_str(), " must use list syntax: ");
            push_str(&mut m, key.as_str());
            push_str(&mut m, " = [...]");
            m
        },
        FieldType::Value(FieldShape::MapOf(_, _)) => {
            let mut m = cat_quoted("map field ", key.as_str(), " must use assignment syntax: ");
            push_str(&mut m, key.as_str());
            push_str(&mut m, " = { ... }");
            m
        },
        _ => cat_quoted("field ", key.as_str(), " is not a message type, cannot use block syntax"),
    }
}

fn oneof_of(f: &SchemaField) -> (r: Option<&str>)
    ensures
        match f.oneof {
            Some(o) => r matches Some(x) && x@ == o@,
            None => r is None,
        },
{
    match &f.oneof {
        Some(o) => Some(o.as_str()),
        None => None,
    }
}

proof fn lemma_log_push(v: Seq<Node>, n: Node)
    ensures
        log_model(v.push(n)) == log_model(v).push(node_model(n)),
{
    assert(log_model(v.push(n)) =~= log_model(v).push(node_model(n)));
}

/// What the decoding from `k` gives, in the state reached so far.
pub open spec fn from_here(
    sc: Schema,
    mi: int,
    toks: Seq<Token>,
    k: int,
    depth: int,
    in_block: bool,
    discard: bool,
    me: Option<usize>,
    prefix: Seq<char>,
    log: Seq<Node>,
    set: Seq<(String, String)>,
) -> Result<(Seq<NodeModel>, int), (Position, Seq<char>)> {
    fields_spec(sc, mi, toks, k, depth, in_block, discard, me, prefix, log_model(log), oneof_model(set))
}

/// One `key = value` entry at token `k` of a message of type `mi`: records
/// what it sets and gives the position after it.
#[verifier::rlimit(100)]
fn assign_entry(
    sc: &Schema,
    mi: usize,
    toks: &[Token],
    k: usize,
    depth: usize,
    in_block: bool,
    discard: bool,
    me: Option<usize>,
    prefix: &str,
    log: &mut Vec<Node>,
    set: &mut Vec<(String, String)>,
) -> (r: Result<usize, PxfError>)
    requires
        ends_with_eof(toks@),
        k + 2 < toks@.len(),
        schema_ok(*sc),
        mi < sc.messages@.len(),
        depth <= MAX_NESTING_DEPTH,
        old(log)@.len() + (toks@.len() - k) <= usize::MAX,
        !(in_block && toks@[k as int].kind == TokenKind::RBrace),
        toks@[k as int].kind == TokenKind::Ident || toks@[k as int].kind == TokenKind::String
            || toks@[k as int].kind == TokenKind::Int,
        toks@[k + 1].kind == TokenKind::Equals,
    ensures
        match r {
            Ok(k2) => k < k2 < toks@.len() && final(log)@.len() <= old(log)@.len() + (k2 - k)
                && from_here(*sc, mi as int, toks@, k as int, depth as int, in_block, discard, me, prefix@, old(log)@, old(set)@)
                == from_here(*sc, mi as int, toks@, k2 as int, depth as int, in_block, discard, me, prefix@, final(log)@, final(set)@),
            Err(x) => from_here(*sc, mi as int, toks@, k as int, depth as int, in_block, discard, me, prefix@, old(log)@, old(set)@)
                == Err::<(Seq<NodeModel>, int), (Position, Seq<char>)>((x.pos, x.msg@)),
        },
    decreases toks@.len() - k, 0int,
{
    let msg = &sc.messages[mi];
    let t = &toks[k];
    let key = &t.value;
    match find_field(msg, key) {
        None => {
            if discard {
                return Ok(skip_value(toks, k + 2));
            }
            let mut m = cat_quoted("unknown field ", key.as_str(), " in ");
            push_str(&mut m, msg.full_name.as_str());
            return fail_at(t.pos, m);
        },
        Some(fi) => {
            let f = &msg.fields[fi];
            assert(sc.messages@[mi as int].fields@[fi as int] == *f);
            match check_oneof(oneof_of(f), f.name.as_str(), set, t.pos) {
                Ok(()) => {},
                Err(e) => {
                    return Err(e);
                },
            }
            let v = &toks[k + 2];
            if v.kind == TokenKind::Null {
                let node = Node { parent: me, field: f.name.clone(), path: concat(prefix, f.name.as_str()), data: NodeData::Null };
                proof {
                    lemma_log_push(log@, node);
                }
                log.push(node);
                return Ok(k + 3);
            }
            match &f.kind {
                FieldType::Value(shape) => {
                    let (d, e) = match decode_field_value(toks, k + 2, depth, shape, f.name.as_str()) {
                        Ok(x) => x,
                        Err(x) => {
                            return Err(x);
                        },
                    };
                    let ghost dg = d;
                    let ghost sh = *shape;
                    let node = Node { parent: me, field: f.name.clone(), path: concat(prefix, f.name.as_str()), data: NodeData::Value(d) };
                    proof {
                        lemma_log_push(log@, node);
                        match sh {
                            FieldShape::Single(_) => {},
                            FieldShape::List(sk) => {
                                let es = list_outcome(toks@, k + 2, depth as int, sk, f.name@)->Ok_0.0;
                                match dg {
                                    DecodedValue::List(vv) => {
                                        assert(Seq::new(vv@.len(), |j: int| value_model(vv@[j])) =~= es);
                                    },
                                    _ => {},
                                }
                            },
                            FieldShape::MapOf(_, _) => {},
                        }
                    }
                    log.push(node);
                    Ok(e)
                },
                FieldType::Message(sub) => {
                    if v.kind != TokenKind::LBrace {
                        return fail_at(v.pos, with_quoted("expected '{' for message field ", f.name.as_str()));
                    }
                    if depth >= MAX_NESTING_DEPTH {
                        return fail_at(toks[k + 3].pos, owned("nesting depth exceeds MaxNestingDepth (100)"));
                    }
                    let node = Node { parent: me, field: f.name.clone(), path: concat(prefix, f.name.as_str()), data: NodeData::Message };
                    let at = log.len();
                    proof {
                        lemma_log_push(log@, node);
                    }
                    log.push(node);
                    {
                        let np = nested_prefix(prefix, f.name.as_str());
                        decode_fields(sc, *sub, toks, k + 3, depth + 1, true, discard, Some(at), np.as_str(), log)
                    }
                },
                FieldType::Messages(sub) => {
                    if v.kind != TokenKind::LBracket {
                        return fail_at(v.pos, with_quoted("expected '[' for repeated field ", f.name.as_str()));
                    }
                    if depth >= MAX_NESTING_DEPTH {
                        return fail_at(v.pos, owned("nesting depth exceeds MaxNestingDepth (100)"));
                    }
                    let node = Node { parent: me, field: f.name.clone(), path: concat(prefix, f.name.as_str()), data: NodeData::MessageList };
                    let at = log.len();
                    proof {
                        lemma_log_push(log@, node);
                    }
                    log.push(node);
                    decode_elements(sc, *sub, toks, k + 3, depth + 1, discard, at, f.name.as_str(), prefix, log)
                },
            }
        },
    }
}

/// One `key { ... }` entry at token `k` of a message of type `mi`: a field
/// of message type decoded from its block; gives the position after it.
#[verifier::rlimit(100)]
fn block_entry(
    sc: &Schema,
    mi: usize,
    toks: &[Token],
    k: usize,
    depth: usize,
    in_block: bool,
    discard: bool,
    me: Option<usize>,
    prefix: &str,
    log: &mut Vec<Node>,
    set: &mut Vec<(String, String)>,
) -> (r: Result<usize, PxfError>)
    requires
        ends_with_eof(toks@),
        k + 2 < toks@.len(),
        schema_ok(*sc),
        mi < sc.messages@.len(),
        depth <= MAX_NESTING_DEPTH,
        old(log)@.len() + (toks@.len() - k) <= usize::MAX,
        !(in_block && toks@[k as int].kind == TokenKind::RBrace),
        toks@[k as int].kind == TokenKind::Ident || toks@[k as int].kind == TokenKind::String
            || toks@[k as int].kind == TokenKind::Int,
        toks@[k + 1].kind == TokenKind::LBrace,
    ensures
        match r {
            Ok(k2) => k < k2 < toks@.len() && final(log)@.len() <= old(log)@.len() + (k2 - k)
                && from_here(*sc, mi as int, toks@, k as int, depth as int, in_block, discard, me, prefix@, old(log)@, old(set)@)
                == from_here(*sc, mi as int, toks@, k2 as int, depth as int, in_block, discard, me, prefix@, final(log)@, final(set)@),
            Err(x) => from_here(*sc, mi as int, toks@, k as int, depth as int, in_block, discard, me, prefix@, old(log)@, old(set)@)
                == Err::<(Seq<NodeModel>, int), (Position, Seq<char>)>((x.pos, x.msg@)),
        },
    decreases toks@.len() - k, 0int,
{
    let msg = &sc.messages[mi];
    let t = &toks[k];
    let key = &t.value;
    match find_field(msg, key) {
        None => {
            if discard {
                return Ok(skip_nested_from(toks, k + 2, TokenKind::LBrace, TokenKind::RBrace));
            }
            let mut m = cat_quoted("unknown field ", key.as_str(), " in ");
            push_str(&mut m, msg.full_name.as_str());
            fail_at(t.pos, m)
        },
        Some(fi) => {
            let f = &msg.fields[fi];
            assert(sc.messages@[mi as int].fields@[fi as int] == *f);
            match &f.kind {
                FieldType::Message(sub) => {
                    match check_oneof(oneof_of(f), f.name.as_str(), set, t.pos) {
                        Ok(()) => {},
                        Err(e) => {
                            return Err(e);
                        },
                    }
                    if depth >= MAX_NESTING_DEPTH {
                        return fail_at(toks[k + 2].pos, owned("nesting depth exceeds MaxNestingDepth (100)"));
                    }
                    let node = Node { parent: me, field: f.name.clone(), path: concat(prefix, f.name.as_str()), data: NodeData::Message };
                    let at = log.len();
                    proof {
                        lemma_log_push(log@, node);
                    }
                    log.push(node);
                    {
                        let np = nested_prefix(prefix, f.name.as_str());
                        decode_fields(sc, *sub, toks, k + 2, depth + 1, true, discard, Some(at), np.as_str(), log)
                    }
                },
                _ => fail_at(t.pos, block_syntax_error(key, &f.kind)),
            }
        },
    }
}

/// The fields of a message of type `mi` from token `i`, at nesting `depth`,
/// recorded into `log` under the node `me`; inside a block up to its `}`
/// when `in_block`, else up to the `EOF`. Unknown fields are an error, or
/// skipped when `discard` is set. Gives the position after the fields.
#[verifier::rlimit(100)]
pub fn decode_fields(
    sc: &Schema,
    mi: usize,
    toks: &[Token],
    i: usize,
    depth: usize,
    in_block: bool,
    discard: bool,
    me: Option<usize>,
    prefix: &str,
    log: &mut Vec<Node>,
) -> (r: Result<usize, PxfError>)
    requires
        ends_with_eof(toks@),
        i < toks@.len(),
        schema_ok(*sc),
        mi < sc.messages@.len(),
        depth <= MAX_NESTING_DEPTH,
        old(log)@.len() + (toks@.len() - i) <= usize::MAX,
    ensures
        match fields_spec(
            *sc,
            mi as int,
            toks@,
            i as int,
            depth as int,
            in_block,
            discard,
            me,
            prefix@,
            log_model(old(log)@),
            Seq::empty(),
        ) {
            Ok((l, e)) => r matches Ok(x) && x as int == e && log_model(final(log)@) == l,
            Err((p, m)) => r matches Err(x) && x.pos == p && x.msg@ == m,
        },
        r matches Ok(e) ==> i <= e < toks@.len() && (in_block ==> i < e) && final(log)@.len()
            <= old(log)@.len() + (e - i),
    decreases toks@.len() - i, 1int,
{
    let ghost goal = fields_spec(
        *sc,
        mi as int,
        toks@,
        i as int,
        depth as int,
        in_block,
        discard,
        me,
        prefix@,
        log_model(old(log)@),
        Seq::empty(),
    );
    let mut set: Vec<(String, String)> = Vec::new();
    let mut k: usize = i;
    assert(oneof_model(set@) =~= Seq::<(Seq<char>, Seq<char>)>::empty());
    loop
        invariant
            ends_with_eof(toks@),
            i <= k < toks@.len(),
            schema_ok(*sc),
            mi < sc.messages@.len(),
            depth <= MAX_NESTING_DEPTH,
            log@.len() <= old(log)@.len() + (k - i),
            old(log)@.len() + (toks@.len() - i) <= usize::MAX,
            in_block ==> (k > i || log@.len() == old(log)@.len()),
            goal == fields_spec(
                *sc,
                mi as int,
                toks@,
                i as int,
                depth as int,
                in_block,
                discard,
                me,
                prefix@,
                log_model(old(log)@),
                Seq::empty(),
            ),
            goal == from_here(*sc, mi as int, toks@, k as int, depth as int, in_block, discard, me, prefix@, log@, set@),
        decreases toks@.len() - k,
    {
        let t = &toks[k];
        if in_block && t.kind == TokenKind::RBrace {
            return Ok(k + 1);
        }
        if t.kind == TokenKind::Eof {
            if in_block {
                return fail_at(t.pos, owned("expected '}', got EOF"));
            }
            return Ok(k);
        }
        assert(k + 1 < toks@.len());
        if !(t.kind == TokenKind::Ident || t.kind == TokenKind::String || t.kind == TokenKind::Int) {
            let mut m = owned("expected identifier, string, or integer, got ");
            push_str(&mut m, t.kind.name());
            let q = cat_quoted(" (", t.value.as_str(), ")");
            push_str(&mut m, q.as_str());
            return fail_at(t.pos, m);
        }
        let nx = &toks[k + 1];
        if nx.kind == TokenKind::Equals {
            assert(k + 2 < toks@.len());
            match assign_entry(sc, mi, toks, k, depth, in_block, discard, me, prefix, log, &mut set) {
                Ok(k2) => {
                    k = k2;
                },
                Err(x) => {
                    return Err(x);
                },
            }
        } else if nx.kind == TokenKind::LBrace {
            assert(k + 2 < toks@.len());
            match block_entry(sc, mi, toks, k, depth, in_block, discard, me, prefix, log, &mut set) {
                Ok(k2) => {
                    k = k2;
                },
                Err(x) => {
                    return Err(x);
                },
            }
        } else if nx.kind == TokenKind::Colon {
            return fail_at(t.pos, owned("unexpected ':' in message context, use '=' for field assignments"));
        } else {
            let mut m = cat_quoted("expected '=', ':', or '{' after ", t.value.as_str(), ", got ");
            push_str(&mut m, nx.kind.name());
            return fail_at(nx.pos, m);
        }
    }
}

/// The elements of a repeated message field from token `k`, each a block
/// decoded as a message of type `mi` at nesting `depth`, recorded under the
/// list's node `lst`. Gives the position after the closing `]`.
pub fn decode_elements(
    sc: &Schema,
    mi: usize,
    toks: &[Token],
    k: usize,
    depth: usize,
    discard: bool,
    lst: usize,
    field: &str,
    prefix: &str,
    log: &mut Vec<Node>,
) -> (r: Result<usize, PxfError>)
    requires
        ends_with_eof(toks@),
        k < toks@.len(),
        schema_ok(*sc),
        mi < sc.messages@.len(),
        depth <= MAX_NESTING_DEPTH,
        old(log)@.len() + (toks@.len() - k) <= usize::MAX,
    ensures
        match elements_spec(*sc, mi as int, toks@, k as int, depth as int, discard, lst, field@, prefix@, log_model(old(log)@)) {
            Ok((l, e)) => r matches Ok(x) && x as int == e && log_model(final(log)@) == l,
            Err((p, m)) => r matches Err(x) && x.pos == p && x.msg@ == m,
        },
        r matches Ok(e) ==> k < e < toks@.len() && final(log)@.len() <= old(log)@.len() + (e - k),
    decreases toks@.len() - k, 0int,
{
    let ghost goal = elements_spec(*sc, mi as int, toks@, k as int, depth as int, discard, lst, field@, prefix@, log_model(old(log)@));
    let mut j = k;
    loop
        invariant
            ends_with_eof(toks@),
            k <= j < toks@.len(),
            schema_ok(*sc),
            mi < sc.messages@.len(),
            depth <= MAX_NESTING_DEPTH,
            log@.len() <= old(log)@.len() + (j - k),
            old(log)@.len() + (toks@.len() - k) <= usize::MAX,
            goal == elements_spec(*sc, mi as int, toks@, k as int, depth as int, discard, lst, field@, prefix@, log_model(old(log)@)),
            goal == elements_spec(*sc, mi as int, toks@, j as int, depth as int, discard, lst, field@, prefix@, log_model(log@)),
        decreases toks@.len() - j,
    {
        let t = &toks[j];
        if t.kind == TokenKind::RBracket {
            return Ok(j + 1);
        }
        if t.kind == TokenKind::Eof {
            let mut m = owned("expected ']', got ");
            push_str(&mut m, t.kind.name());
            return fail_at(t.pos, m);
        }
        assert(j + 1 < toks@.len());
        if t.kind == TokenKind::Null {
            return fail_at(t.pos, with_quoted("null is not allowed in repeated field ", field));
        }
        if t.kind != TokenKind::LBrace {
            return fail_at(t.pos, owned("expected '{' for repeated message element"));
        }
        if depth >= MAX_NESTING_DEPTH {
            return fail_at(toks[j + 1].pos, owned("nesting depth exceeds MaxNestingDepth (100)"));
        }
        let node = Node { parent: Some(lst), field: owned(field), path: concat(prefix, field), data: NodeData::Element };
        let at = log.len();
        proof {
            lemma_log_push(log@, node);
        }
        log.push(node);
        let e = match decode_fields(sc, mi, toks, j + 1, depth + 1, true, discard, Some(at), prefix, log) {
            Ok(e) => e,
            Err(x) => {
                return Err(x);
            },
        };
        if toks[e].kind == TokenKind::Comma {
            j = e + 1;
        } else {
            j = e;
        }
    }
}

// ---------------------------------------------------------------- defaults
/// The message of a default that does not read as its field's type.
pub open spec fn bad_default(type_label: Seq<char>, def: Seq<char>, field: Seq<char>) -> Seq<char> {
    "invalid default "@ + type_label + " "@ + quote(def) + " for field "@ + quote(field)
}

/// What a `(pxf.default)` text gives for a field of kind `kind`: the text
/// read as that type (a bool default is true exactly for `true`, an enum
/// default names a value or gives its number), or the message of the
/// error. A float or double default keeps its text.
pub open spec fn default_value(kind: ScalarKind, def: Seq<char>, field: Seq<char>) -> Result<ValueModel, Seq<char>> {
    match kind {
        ScalarKind::String => Ok(ValueModel::String(def)),
        ScalarKind::Bool => Ok(ValueModel::Bool(def == "true"@)),
        ScalarKind::Int32 => match int_in_range(def, true, i32::MIN as int, i32::MAX as int) {
            Some(n) => Ok(ValueModel::I32(n)),
            None => Err(bad_default("int32"@, def, field)),
        },
        ScalarKind::Int64 => match int_in_range(def, true, i64::MIN as int, i64::MAX as int) {
            Some(n) => Ok(ValueModel::I64(n)),
            None => Err(bad_default("int64"@, def, field)),
        },
        ScalarKind::Uint32 => match int_in_range(def, false, 0, u32::MAX as int) {
            Some(n) => Ok(ValueModel::U32(n)),
            None => Err(bad_default("uint32"@, def, field)),
        },
        ScalarKind::Uint64 => match int_in_range(def, false, 0, u64::MAX as int) {
            Some(n) => Ok(ValueModel::U64(n)),
            None => Err(bad_default("uint64"@, def, field)),
        },
        ScalarKind::Float => Ok(ValueModel::Float(def)),
        ScalarKind::Double => Ok(ValueModel::Double(def)),
        ScalarKind::Bytes => if alphabet_until_pad(encode_utf8(def)) {
            Ok(ValueModel::Bytes(base64_decode_spec(encode_utf8(def))))
        } else {
            Err(bad_default("bytes"@, def, field))
        },
        ScalarKind::Enum(e) => match enum_number(e.values@, def, 0) {
            Some(n) => Ok(ValueModel::EnumNumber(n as int)),
            None => match int_in_range(def, true, i32::MIN as int, i32::MAX as int) {
                Some(n) => Ok(ValueModel::EnumNumber(n)),
                None => Err("invalid default enum "@ + quote(def) + " for field "@ + quote(field)),
            },
        },
    }
}

fn bad_default_text(type_label: &str, def: &str, field: &str) -> (r: String)
    ensures
        r@ == bad_default(type_label@, def@, field@),
{
    let mut m = owned("invalid default ");
    push_str(&mut m, type_label);
    let q = cat_quoted(" ", def, " for field ");
    push_str(&mut m, q.as_str());
    let q2 = quoted_copy(field);
    push_str(&mut m, q2.as_str());
    m
}

fn default_int(def: &str, field: &str, signed: bool, min: i128, max: i128, type_label: &str) -> (r: Result<i128, String>)
    requires
        -0x1_0000_0000_0000_0000 <= min <= max <= 0x1_0000_0000_0000_0000,
    ensures
        match int_in_range(def@, signed, min as int, max as int) {
            Some(n) => r == Ok::<i128, String>(n as i128),
            None => r matches Err(m) && m@ == bad_default(type_label@, def@, field@),
        },
{
    match parse_int_text(def, signed, min, max) {
        Some(n) => Ok(n),
        None => Err(bad_default_text(type_label, def, field)),
    }
}

/// Read a `(pxf.default)` text for a field of kind `kind`, as
/// [`default_value`] says.
pub fn default_value_of(kind: &ScalarKind, def: &String, field: &str) -> (r: Result<FieldValue, String>)
    ensures
        match default_value(*kind, def@, field@) {
            Ok(v) => r matches Ok(x) && value_model(x) == v,
            Err(m) => r matches Err(e) && e@ == m,
        },
{
    match kind {
        ScalarKind::String => Ok(FieldValue::String(def.clone())),
        ScalarKind::Bool => Ok(FieldValue::Bool(str_is(def, "true"))),
        ScalarKind::Int32 => match default_int(def.as_str(), field, true, -0x8000_0000, 0x7fff_ffff, "int32") {
            Ok(n) => Ok(FieldValue::I32(n as i32)),
            Err(e) => Err(e),
        },
        ScalarKind::Int64 => match default_int(
            def.as_str(),
            field,
            true,
            -0x8000_0000_0000_0000,
            0x7fff_ffff_ffff_ffff,
            "int64",
        ) {
            Ok(n) => Ok(FieldValue::I64(n as i64)),
            Err(e) => Err(e),
        },
        ScalarKind::Uint32 => match default_int(def.as_str(), field, false, 0, 0xffff_ffff, "uint32") {
            Ok(n) => Ok(FieldValue::U32(n as u32)),
            Err(e) => Err(e),
        },
        ScalarKind::Uint64 => match default_int(def.as_str(), field, false, 0, 0xffff_ffff_ffff_ffff, "uint64") {
            Ok(n) => Ok(FieldValue::U64(n as u64)),
            Err(e) => Err(e),
        },
        ScalarKind::Float => Ok(FieldValue::Float(def.clone())),
        ScalarKind::Double => Ok(FieldValue::Double(def.clone())),
        ScalarKind::Bytes => {
            let b = def.as_str().as_bytes();
            if !base64_alphabet_ok(b) {
                return Err(bad_default_text("bytes", def.as_str(), field));
            }
            Ok(FieldValue::Bytes(decode_base64(b)))
        },
        ScalarKind::Enum(e) => match find_enum_number(e, def) {
            Some(n) => Ok(FieldValue::EnumNumber(n)),
            None => match parse_int_text(def.as_str(), true, -0x8000_0000, 0x7fff_ffff) {
                Some(n) => {
                    assert(-0x8000_0000 <= n <= 0x7fff_ffff);
                    Ok(FieldValue::EnumNumber(n as i32))
                },
                None => {
                    let mut m = cat_quoted("invalid default enum ", def.as_str(), " for field ");
                    let q = quoted_copy(field);
                    push_str(&mut m, q.as_str());
                    Err(m)
                },
            },
        },
    }
}


// ---------------------------------------------------------------- laws
/// A `double` field accepts exactly the tokens a `float` field accepts:
/// every integer or float literal is taken as the number it writes, its text
/// kept as the value, for either width; any other token is refused for both.
pub proof fn lemma_double_accepts_numbers(tok: Token, field: Seq<char>)
    ensures
        (tok.kind == TokenKind::Int || tok.kind == TokenKind::Float) ==> scalar_outcome(
            ScalarKind::Double,
            tok,
            field,
        ) == Ok::<ValueModel, Seq<char>>(ValueModel::Double(tok.value@)) && scalar_outcome(
            ScalarKind::Float,
            tok,
            field,
        ) == Ok::<ValueModel, Seq<char>>(ValueModel::Float(tok.value@)),
        scalar_outcome(ScalarKind::Double, tok, field) is Ok <==> scalar_outcome(
            ScalarKind::Float,
            tok,
            field,
        ) is Ok,
        scalar_outcome(ScalarKind::Double, tok, field) is Ok <==> (tok.kind == TokenKind::Int
            || tok.kind == TokenKind::Float),
{
}

} // verus!
