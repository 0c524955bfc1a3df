//! Map keys in PXF text: how a key is read for each key type a protobuf
//! map can have, and how it is written back, quoted where it is not a bare
//! identifier.
use vstd::prelude::*;

use crate::pxf::errors::PxfError;
use crate::pxf::keyed::{is_ascii_alpha, is_ascii_digit};
use crate::pxf::token::Position;
use crate::text::{chars_of, decimal_chars, owned, push_char, push_decimal, push_str, str_is};

verus! {

/// The key types a protobuf map can have, as far as reading a key goes;
/// the signed, zigzag and fixed encodings of one width read alike.
/// `Unsupported` carries the name of any other type.
#[derive(Debug, Clone, PartialEq, Eq)]
pub enum MapKeyKind {
    String,
    Int32,
    Int64,
    Uint32,
    Uint64,
    Bool,
    Unsupported(String),
}

/// A map key as read.
#[derive(Debug, Clone, PartialEq, Eq)]
pub enum MapKey {
    String(String),
    Bool(bool),
    I32(i32),
    I64(i64),
    U32(u32),
    U64(u64),
}

// ---------------------------------------------------------------- reading
pub open spec fn char_digit(c: char) -> bool {
    48 <= (c as u32) <= 57
}

/// The number ASCII decimal digit characters spell.
pub open spec fn chars_value(s: Seq<char>) -> nat
    decreases s.len(),
{
    if s.len() == 0 {
        0
    } else {
        chars_value(s.drop_last()) * 10 + ((s.last() as u32) - 48) as nat
    }
}

/// The length of the sign an integer's `FromStr` takes: a `+`, or a `-`
/// when negatives are allowed.
pub open spec fn sign_len(s: Seq<char>, signed: bool) -> int {
    if s.len() > 0 && (s[0] == '+' || (signed && s[0] == '-')) {
        1
    } else {
        0
    }
}

/// What an integer's `FromStr` reads: an optional sign and one or more
/// ASCII digits.
pub open spec fn int_text(s: Seq<char>, signed: bool) -> Option<int> {
    let digits = s.subrange(sign_len(s, signed), s.len() as int);
    if digits.len() == 0 || exists|i: int| 0 <= i < digits.len() && !char_digit(#[trigger] digits[i]) {
        None
    } else if signed && s[0] == '-' {
        Some(-chars_value(digits))
    } else {
        Some(chars_value(digits) as int)
    }
}

/// The integer `s` reads as when it lies in `min..=max`.
pub open spec fn int_in_range(s: Seq<char>, signed: bool, min: int, max: int) -> Option<int> {
    match int_text(s, signed) {
        Some(v) => if min <= v <= max {
            Some(v)
        } else {
            None
        },
        None => None,
    }
}

proof fn lemma_chars_value_prefix(s: Seq<char>, k: int)
    requires
        0 <= k <= s.len(),
        forall|i: int| 0 <= i < s.len() ==> char_digit(#[trigger] s[i]),
    ensures
        chars_value(s.subrange(0, k)) <= chars_value(s),
    decreases s.len() - k,
{
    if k < s.len() {
        lemma_chars_value_prefix(s, k + 1);
        assert(s.subrange(0, k + 1).drop_last() =~= s.subrange(0, k));
    } else {
        assert(s.subrange(0, k) =~= s);
    }
}

/// Reads an integer as `FromStr` does, in `min..=max`; `None` when the text
/// is not one or lies outside.
pub(crate) fn parse_int_text(s: &str, signed: bool, min: i128, max: i128) -> (r: Option<i128>)
    requires
        -0x1_0000_0000_0000_0000 <= min <= max <= 0x1_0000_0000_0000_0000,
    ensures
        match int_in_range(s@, signed, min as int, max as int) {
            Some(v) => r == Some(v as i128),
            None => r is None,
        },
{
    let t = chars_of(s);
    let n = t.len();
    let neg = signed && n > 0 && t[0] == '-';
    let start: usize = if n > 0 && (t[0] == '+' || neg) {
        1
    } else {
        0
    };
    let ghost digits = s@.subrange(sign_len(s@, signed), s@.len() as int);
    assert(start == sign_len(s@, signed));
    assert(digits =~= t@.subrange(start as int, n as int));
    if start == n {
        assert(digits.len() == 0);
        assert(int_text(s@, signed) is None);
        return None;
    }
    if !all_digits_from(&t, start) {
        proof {
            let i = choose|i: int| start <= i < t@.len() && !char_digit(#[trigger] t@[i]);
            assert(!char_digit(digits[i - start]));
        }
        return None;
    }
    proof {
        assert forall|i: int| 0 <= i < digits.len() implies char_digit(#[trigger] digits[i]) by {
            assert(digits[i] == t@[start + i]);
        }
    }
    let mut v: i128 = 0;
    let mut k = start;
    while k < n
        invariant
            start <= k <= n,
            n == t@.len(),
            t@ == s@,
            digits == t@.subrange(start as int, n as int),
            digits == s@.subrange(sign_len(s@, signed), s@.len() as int),
            start == sign_len(s@, signed),
            -0x1_0000_0000_0000_0000 <= min <= max <= 0x1_0000_0000_0000_0000,
            forall|i: int| start <= i < n ==> char_digit(#[trigger] t@[i]),
            forall|i: int| 0 <= i < digits.len() ==> char_digit(#[trigger] digits[i]),
            v == chars_value(t@.subrange(start as int, k as int)),
            v <= 0x1_0000_0000_0000_0000,
        decreases n - k,
    {
        let u = t[k] as u32;
        assert(char_digit(t@[k as int]));
        proof {
            assert(t@.subrange(start as int, k + 1).drop_last() =~= t@.subrange(
                start as int,
                k as int,
            ));
        }
        let next = v * 10 + (u - 48) as i128;
        if next > 0x1_0000_0000_0000_0000 {
            proof {
                lemma_chars_value_prefix(digits, k + 1 - start);
                assert(digits.subrange(0, k + 1 - start) =~= t@.subrange(start as int, k + 1));
                assert(chars_value(t@.subrange(start as int, k + 1)) == next);
                assert(chars_value(digits) > 0x1_0000_0000_0000_0000);
                assert(!(exists|i: int| 0 <= i < digits.len() && !char_digit(#[trigger] digits[i])));
                assert(digits.len() > 0);
                let cv = chars_value(digits) as int;
                if signed && s@[0] == '-' {
                    assert(int_text(s@, signed) == Some(-cv));
                } else {
                    assert(int_text(s@, signed) == Some(cv));
                }

            }
            return None;
        }
        v = next;
        k = k + 1;
    }
    proof {
        assert(t@.subrange(start as int, k as int) == digits);
    }
    let val: i128 = if neg {
        -v
    } else {
        v
    };
    if val < min || val > max {
        return None;
    }
    Some(val)
}

/// Whether the characters from `k` on are all ASCII digits.
fn all_digits_from(t: &Vec<char>, k: usize) -> (r: bool)
    ensures
        r == forall|i: int| k <= i < t@.len() ==> char_digit(#[trigger] t@[i]),
{
    let mut j = k;
    while j < t.len()
        invariant
            k <= j || j >= t@.len(),
            forall|i: int| k <= i < j ==> char_digit(#[trigger] t@[i]),
        decreases t@.len() - j,
    {
        let u = t[j] as u32;
        if !(48 <= u && u <= 57) {
            return false;
        }
        j = j + 1;
    }
    true
}

pub open spec fn invalid_key_message(kind: Seq<char>, key: Seq<char>) -> Seq<char> {
    "invalid "@ + kind + " map key: "@ + key
}

fn invalid_key(pos: Position, kind: &str, key: &String) -> (e: PxfError)
    ensures
        e.pos == pos,
        e.msg@ == invalid_key_message(kind@, key@),
{
    let mut m = owned("invalid ");
    push_str(&mut m, kind);
    push_str(&mut m, " map key: ");
    push_str(&mut m, key.as_str());
    PxfError::new(pos, m)
}

/// What a map key of kind `kind` reads as, or the message of the error.
pub open spec fn map_key_outcome(kind: MapKeyKind, key: Seq<char>) -> Result<MapKey, Seq<char>> {
    match kind {
        MapKeyKind::Int32 => match int_in_range(key, true, i32::MIN as int, i32::MAX as int) {
            Some(v) => Ok(MapKey::I32(v as i32)),
            None => Err(invalid_key_message("int32"@, key)),
        },
        MapKeyKind::Int64 => match int_in_range(key, true, i64::MIN as int, i64::MAX as int) {
            Some(v) => Ok(MapKey::I64(v as i64)),
            None => Err(invalid_key_message("int64"@, key)),
        },
        MapKeyKind::Uint32 => match int_in_range(key, false, 0, u32::MAX as int) {
            Some(v) => Ok(MapKey::U32(v as u32)),
            None => Err(invalid_key_message("uint32"@, key)),
        },
        MapKeyKind::Uint64 => match int_in_range(key, false, 0, u64::MAX as int) {
            Some(v) => Ok(MapKey::U64(v as u64)),
            None => Err(invalid_key_message("uint64"@, key)),
        },
        MapKeyKind::Bool => if key == "true"@ {
            Ok(MapKey::Bool(true))
        } else if key == "false"@ {
            Ok(MapKey::Bool(false))
        } else {
            Err(invalid_key_message("bool"@, key))
        },
        MapKeyKind::Unsupported(name) => Err("unsupported map key kind: "@ + name@),
        MapKeyKind::String => Err(seq![]),
    }
}

/// Reads a map key written `key` for a map of key kind `kind`: a string key
/// as it is, an integer key as the integer type reads it, a bool key from
/// `true` or `false`.
pub fn decode_map_key(kind: &MapKeyKind, key: String, pos: Position) -> (r: Result<
    MapKey,
    PxfError,
>)
    ensures
        *kind is String ==> r == Ok::<MapKey, PxfError>(MapKey::String(key)),
        !(*kind is String) ==> match map_key_outcome(*kind, key@) {
            Ok(k) => r == Ok::<MapKey, PxfError>(k),
            Err(m) => r matches Err(e) && e.pos == pos && e.msg@ == m,
        },
{
    match kind {
        MapKeyKind::String => Ok(MapKey::String(key)),
        MapKeyKind::Int32 => match parse_int_text(key.as_str(), true, -2147483648, 2147483647) {
            Some(v) => Ok(MapKey::I32(v as i32)),
            None => Err(invalid_key(pos, "int32", &key)),
        },
        MapKeyKind::Int64 => match parse_int_text(
            key.as_str(),
            true,
            -9223372036854775808,
            9223372036854775807,
        ) {
            Some(v) => Ok(MapKey::I64(v as i64)),
            None => Err(invalid_key(pos, "int64", &key)),
        },
        MapKeyKind::Uint32 => match parse_int_text(key.as_str(), false, 0, 4294967295) {
            Some(v) => Ok(MapKey::U32(v as u32)),
            None => Err(invalid_key(pos, "uint32", &key)),
        },
        MapKeyKind::Uint64 => match parse_int_text(key.as_str(), false, 0, 18446744073709551615) {
            Some(v) => Ok(MapKey::U64(v as u64)),
            None => Err(invalid_key(pos, "uint64", &key)),
        },
        MapKeyKind::Bool => {
            if str_is(&key, "true") {
                Ok(MapKey::Bool(true))
            } else if str_is(&key, "false") {
                Ok(MapKey::Bool(false))
            } else {
                Err(invalid_key(pos, "bool", &key))
            }
        },
        MapKeyKind::Unsupported(name) => {
            let mut m = owned("unsupported map key kind: ");
            push_str(&mut m, name.as_str());
            Err(PxfError::new(pos, m))
        },
    }
}

// ---------------------------------------------------------------- writing
/// A bare identifier key: an ASCII letter or `_`, then letters, digits and
/// `_`, and not one of the value keywords.
pub open spec fn valid_ident(s: Seq<char>) -> bool {
    &&& s.len() > 0
    &&& s != "true"@ && s != "false"@ && s != "null"@
    &&& is_ascii_alpha(s[0]) || s[0] == '_'
    &&& forall|i: int|
        1 <= i < s.len() ==> (is_ascii_alpha(#[trigger] s[i]) || is_ascii_digit(s[i]) || s[i]
            == '_')
}

/// Whether `s` can be written as a bare map key.
pub fn is_valid_ident(s: &str) -> (r: bool)
    ensures
        r == valid_ident(s@),
{
    let t = chars_of(s);
    if t.len() == 0 {
        return false;
    }
    let o = owned(s);
    if str_is(&o, "true") || str_is(&o, "false") || str_is(&o, "null") {
        return false;
    }
    let u0 = t[0] as u32;
    if !((65 <= u0 && u0 <= 90) || (97 <= u0 && u0 <= 122) || t[0] == '_') {
        return false;
    }
    let mut k: usize = 1;
    while k < t.len()
        invariant
            1 <= k <= t@.len(),
            t@ == s@,
            forall|i: int|
                1 <= i < k ==> (is_ascii_alpha(#[trigger] t@[i]) || is_ascii_digit(t@[i]) || t@[i]
                    == '_'),
        decreases t@.len() - k,
    {
        let u = t[k] as u32;
        if !((65 <= u && u <= 90) || (97 <= u && u <= 122) || (48 <= u && u <= 57) || t[k]
            == '_') {
            return false;
        }
        k = k + 1;
    }
    true
}

pub open spec fn hex_char(v: int) -> char {
    if v < 10 {
        (v + 48) as char
    } else {
        (v + 87) as char
    }
}

/// How one character is written inside quotes: `"`, `\`, newline, carriage
/// return and tab by their escapes, other control characters as `\xHH`.
pub open spec fn key_escape(c: char) -> Seq<char> {
    if c == '"' {
        seq!['\\', '"']
    } else if c == '\\' {
        seq!['\\', '\\']
    } else if c == '\n' {
        seq!['\\', 'n']
    } else if c == '\r' {
        seq!['\\', 'r']
    } else if c == '\t' {
        seq!['\\', 't']
    } else if (c as u32) < 0x20 {
        seq!['\\', 'x', hex_char((c as u32) as int / 16), hex_char((c as u32) as int % 16)]
    } else {
        seq![c]
    }
}

pub open spec fn key_escape_text(s: Seq<char>) -> Seq<char>
    decreases s.len(),
{
    if s.len() == 0 {
        seq![]
    } else {
        key_escape_text(s.drop_last()) + key_escape(s.last())
    }
}

/// `s` in double quotes with [`key_escape`] applied to each character.
pub open spec fn key_quoted(s: Seq<char>) -> Seq<char> {
    seq!['"'] + key_escape_text(s) + seq!['"']
}

fn hex_digit_char(v: u32) -> (c: char)
    requires
        v < 16,
    ensures
        c == hex_char(v as int),
{
    if v < 10 {
        ((v + 48) as u8) as char
    } else {
        ((v + 87) as u8) as char
    }
}

/// `s` in double quotes, escaped as [`key_escape`] says.
pub fn write_quoted_string(s: &str) -> (r: String)
    ensures
        r@ == key_quoted(s@),
{
    let t = chars_of(s);
    let mut out = String::new();
    push_char(&mut out, '"');
    let mut k: usize = 0;
    while k < t.len()
        invariant
            k <= t@.len(),
            t@ == s@,
            out@ == seq!['"'] + key_escape_text(t@.subrange(0, k as int)),
        decreases t@.len() - k,
    {
        let c = t[k];
        let ghost before = out@;
        if c == '"' {
            push_char(&mut out, '\\');
            push_char(&mut out, '"');
        } else if c == '\\' {
            push_char(&mut out, '\\');
            push_char(&mut out, '\\');
        } else if c == '\n' {
            push_char(&mut out, '\\');
            push_char(&mut out, 'n');
        } else if c == '\r' {
            push_char(&mut out, '\\');
            push_char(&mut out, 'r');
        } else if c == '\t' {
            push_char(&mut out, '\\');
            push_char(&mut out, 't');
        } else if (c as u32) < 0x20 {
            let n = c as u32;
            push_char(&mut out, '\\');
            push_char(&mut out, 'x');
            push_char(&mut out, hex_digit_char(n / 16));
            push_char(&mut out, hex_digit_char(n % 16));
        } else {
            push_char(&mut out, c);
        }
        proof {
            assert(t@.subrange(0, k + 1).drop_last() =~= t@.subrange(0, k as int));
            assert(out@ =~= before + key_escape(c));
        }
        k = k + 1;
    }
    push_char(&mut out, '"');
    assert(t@.subrange(0, k as int) =~= t@);
    out
}

/// A signed integer in decimal.
pub open spec fn signed_decimal(v: int) -> Seq<char> {
    if v < 0 {
        seq!['-'] + decimal_chars((-v) as nat)
    } else {
        decimal_chars(v as nat)
    }
}

/// How a map key is written: a string bare when it is an identifier and
/// quoted otherwise, a bool as `true` / `false`, an integer in decimal.
pub open spec fn map_key_text(k: MapKey) -> Seq<char> {
    match k {
        MapKey::String(s) => if valid_ident(s@) {
            s@
        } else {
            key_quoted(s@)
        },
        MapKey::Bool(b) => if b {
            "true"@
        } else {
            "false"@
        },
        MapKey::I32(n) => signed_decimal(n as int),
        MapKey::I64(n) => signed_decimal(n as int),
        MapKey::U32(n) => decimal_chars(n as nat),
        MapKey::U64(n) => decimal_chars(n as nat),
    }
}

fn signed_text(v: i64) -> (r: String)
    ensures
        r@ == signed_decimal(v as int),
{
    let mut out = String::new();
    if v < 0 {
        push_char(&mut out, '-');
        push_decimal(&mut out, (-(v as i128)) as u64);
    } else {
        push_decimal(&mut out, v as u64);
    }
    out
}

/// Writes a map key as [`map_key_text`] says.
pub fn format_map_key(k: &MapKey) -> (r: String)
    ensures
        r@ == map_key_text(*k),
{
    match k {
        MapKey::String(s) => {
            if is_valid_ident(s.as_str()) {
                owned(s.as_str())
            } else {
                write_quoted_string(s.as_str())
            }
        },
        MapKey::Bool(b) => {
            if *b {
                owned("true")
            } else {
                owned("false")
            }
        },
        MapKey::I32(n) => signed_text(*n as i64),
        MapKey::I64(n) => signed_text(*n),
        MapKey::U32(n) => {
            let mut out = String::new();
            push_decimal(&mut out, *n as u64);
            out
        },
        MapKey::U64(n) => {
            let mut out = String::new();
            push_decimal(&mut out, *n);
            out
        },
    }
}

} // verus!
