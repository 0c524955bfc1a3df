//! Tokenizer for PXF (Proto eXpressive Format).
//!
//! Works on the UTF-8 bytes of the input: identifiers, keywords and numbers
//! are ASCII, while string and comment contents may hold any UTF-8, copied
//! through unchanged.
//!
//! Recognizes comments (`# ...`, `// ...`, `/* ... */`), strings with escapes
//! and triple-quoted strings with closing-line dedent, `b"<base64>"` bytes,
//! integers and floats, RFC 3339 timestamps, Go-style durations, identifiers
//! (dotted names allowed), the keywords `true` / `false` / `null`, the
//! directives `@type`, `@dataset` and `@proto`, and the punctuation
//! `{ } [ ] ( ) = : ,`.
//!
//! The token the lexer returns at an offset is given by [`token_at`], a
//! function of the input bytes alone; positions by [`line_at`] and
//! [`col_at`].
use vstd::prelude::*;
use vstd::string::StringSliceAdditionalSpecFns;
use vstd::utf8::*;

use crate::pxf::base64::{is_valid_base64, valid_base64};
use crate::pxf::token::{Position, Token, TokenKind};
use crate::text::{chars_of, push_char, push_str, str_is, string_from_utf8};

verus! {

// ---------------------------------------------------------------- classes
pub open spec fn is_digit(c: u8) -> bool {
    48 <= c <= 57
}

pub open spec fn is_ident_start(c: u8) -> bool {
    (97 <= c <= 122) || (65 <= c <= 90) || c == 95
}

pub open spec fn is_ident_part(c: u8) -> bool {
    is_ident_start(c) || is_digit(c) || c == 46
}

pub open spec fn is_space(c: u8) -> bool {
    c == 32 || c == 9 || c == 13
}

pub open spec fn is_lower(c: u8) -> bool {
    97 <= c <= 122
}

pub open spec fn is_duration_unit(c: u8) -> bool {
    c == 104 || c == 109 || c == 115 || c == 110 || c == 117
}

/// The byte classes the lexer scans runs of.
pub enum ByteClass {
    Space,
    Digit,
    IdentPart,
    NotNewline,
    DigitOrLower,
}

pub open spec fn in_class(c: u8, k: ByteClass) -> bool {
    match k {
        ByteClass::Space => is_space(c),
        ByteClass::Digit => is_digit(c),
        ByteClass::IdentPart => is_ident_part(c),
        ByteClass::NotNewline => c != 10,
        ByteClass::DigitOrLower => is_digit(c) || is_lower(c),
    }
}

/// The end of the longest run of bytes of class `k` starting at `i`.
pub open spec fn scan(s: Seq<u8>, i: int, k: ByteClass) -> int
    decreases s.len() - i,
{
    if 0 <= i < s.len() && in_class(s[i], k) {
        scan(s, i + 1, k)
    } else {
        i
    }
}

/// The byte at `i`, or zero past either end.
pub open spec fn byte_at(s: Seq<u8>, i: int) -> u8 {
    if 0 <= i < s.len() {
        s[i]
    } else {
        0
    }
}

/// The text of bytes `a..b` of the input.
pub open spec fn text_of(s: Seq<u8>, a: int, b: int) -> Seq<char> {
    decode_utf8(s.subrange(a, b))
}

// ---------------------------------------------------------------- tokens
/// What the lexer yields at an offset: the token kind, its text, and the
/// offset where the lexer stops.
pub type Lexed = (TokenKind, Seq<char>, int);

pub open spec fn punct_kind(c: u8) -> Option<TokenKind> {
    if c == 123 {
        Some(TokenKind::LBrace)
    } else if c == 125 {
        Some(TokenKind::RBrace)
    } else if c == 91 {
        Some(TokenKind::LBracket)
    } else if c == 93 {
        Some(TokenKind::RBracket)
    } else if c == 40 {
        Some(TokenKind::LParen)
    } else if c == 41 {
        Some(TokenKind::RParen)
    } else if c == 61 {
        Some(TokenKind::Equals)
    } else if c == 58 {
        Some(TokenKind::Colon)
    } else if c == 44 {
        Some(TokenKind::Comma)
    } else {
        None
    }
}

/// The offset of the first `*/` at or after `j`, or -1.
pub open spec fn find_block_close(s: Seq<u8>, j: int) -> int
    decreases s.len() - j,
{
    if 0 <= j && j + 1 < s.len() {
        if s[j] == 42 && s[j + 1] == 47 {
            j
        } else {
            find_block_close(s, j + 1)
        }
    } else {
        -1
    }
}

/// The offset of the first `"""` at or after `j`, or -1.
pub open spec fn find_triple_close(s: Seq<u8>, j: int) -> int
    decreases s.len() - j,
{
    if 0 <= j && j + 2 < s.len() {
        if s[j] == 34 && s[j + 1] == 34 && s[j + 2] == 34 {
            j
        } else {
            find_triple_close(s, j + 1)
        }
    } else {
        -1
    }
}

/// The end of the bytes-literal body starting at `j`: the first `"` or
/// newline.
pub open spec fn bytes_body_end(s: Seq<u8>, j: int) -> int
    decreases s.len() - j,
{
    if 0 <= j < s.len() && s[j] != 34 && s[j] != 10 {
        bytes_body_end(s, j + 1)
    } else {
        j
    }
}

pub open spec fn line_comment_at(s: Seq<u8>, i: int) -> Lexed {
    let e = scan(s, i, ByteClass::NotNewline);
    (TokenKind::Comment, text_of(s, i, e), e)
}

pub open spec fn block_comment_at(s: Seq<u8>, i: int) -> Lexed {
    let k = find_block_close(s, i + 2);
    if k >= 0 {
        (TokenKind::Comment, text_of(s, i, k + 2), k + 2)
    } else {
        (
            TokenKind::Illegal,
            "unterminated block comment"@,
            if i + 2 >= s.len() - 1 {
                i + 2
            } else {
                s.len() - 1
            },
        )
    }
}

pub open spec fn triple_string_at(s: Seq<u8>, i: int) -> Lexed {
    let k = find_triple_close(s, i + 3);
    if k >= 0 {
        (TokenKind::String, dedent(text_of(s, i + 3, k)), k + 3)
    } else {
        (
            TokenKind::Illegal,
            "unterminated triple-quoted string"@,
            if i + 3 >= s.len() - 2 {
                i + 3
            } else {
                s.len() - 2
            },
        )
    }
}

pub open spec fn bytes_at(s: Seq<u8>, i: int) -> Lexed {
    let e = bytes_body_end(s, i + 2);
    if e < s.len() && s[e] == 34 {
        if valid_base64(s.subrange(i + 2, e)) {
            (TokenKind::Bytes, text_of(s, i + 2, e), e + 1)
        } else {
            (TokenKind::Illegal, "invalid base64 in bytes literal"@, e + 1)
        }
    } else {
        (TokenKind::Illegal, "unterminated bytes literal"@, e)
    }
}

pub open spec fn directive_at(s: Seq<u8>, i: int) -> Lexed {
    let e = scan(s, i + 1, ByteClass::IdentPart);
    let name = text_of(s, i + 1, e);
    if name == "type"@ {
        (TokenKind::AtType, "@type"@, e)
    } else if name == "dataset"@ {
        (TokenKind::AtDataset, "@dataset"@, e)
    } else if name == "proto"@ {
        (TokenKind::AtProto, "@proto"@, e)
    } else {
        (TokenKind::Illegal, "@"@ + name, e)
    }
}

pub open spec fn ident_at(s: Seq<u8>, i: int) -> Lexed {
    let e = scan(s, i, ByteClass::IdentPart);
    let v = text_of(s, i, e);
    if v == "true"@ || v == "false"@ {
        (TokenKind::Bool, v, e)
    } else if v == "null"@ {
        (TokenKind::Null, v, e)
    } else {
        (TokenKind::Ident, v, e)
    }
}

/// Where a timestamp literal stops: whitespace, `,`, `]`, `}`, `#`, or the
/// start of a `//` or `/*` comment.
pub open spec fn is_timestamp_stop(s: Seq<u8>, j: int) -> bool {
    let c = s[j];
    c == 32 || c == 10 || c == 9 || c == 13 || c == 44 || c == 93 || c == 125 || c == 35 || (c
        == 47 && (byte_at(s, j + 1) == 47 || byte_at(s, j + 1) == 42))
}

pub open spec fn timestamp_end(s: Seq<u8>, j: int) -> int
    decreases s.len() - j,
{
    if 0 <= j < s.len() && !is_timestamp_stop(s, j) {
        timestamp_end(s, j + 1)
    } else {
        j
    }
}

pub open spec fn timestamp_at(s: Seq<u8>, i: int, d: int) -> Lexed {
    let e = timestamp_end(s, d);
    if valid_rfc3339(s.subrange(i, e)) {
        (TokenKind::Timestamp, text_of(s, i, e), e)
    } else {
        (TokenKind::Illegal, "invalid timestamp: "@ + text_of(s, i, e), e)
    }
}

pub open spec fn float_at(s: Seq<u8>, i: int, d: int) -> Lexed {
    let p = if s[d] == 46 {
        scan(s, d + 1, ByteClass::Digit)
    } else {
        d
    };
    let e = if p < s.len() && (s[p] == 101 || s[p] == 69) {
        let q = if p + 1 < s.len() && (s[p + 1] == 43 || s[p + 1] == 45) {
            p + 2
        } else {
            p + 1
        };
        scan(s, q, ByteClass::Digit)
    } else {
        p
    };
    (TokenKind::Float, text_of(s, i, e), e)
}

pub open spec fn duration_at(s: Seq<u8>, i: int, d: int) -> Lexed {
    let e = scan(s, d, ByteClass::DigitOrLower);
    if valid_go_duration(s.subrange(i, e)) {
        (TokenKind::Duration, text_of(s, i, e), e)
    } else {
        (TokenKind::Illegal, "invalid duration: "@ + text_of(s, i, e), e)
    }
}

pub open spec fn number_at(s: Seq<u8>, i: int) -> Lexed {
    let neg = s[i] == 45;
    let d0 = if neg {
        i + 1
    } else {
        i
    };
    if neg && (d0 >= s.len() || !is_digit(s[d0])) {
        (TokenKind::Illegal, "-"@, i + 1)
    } else {
        let d = scan(s, d0, ByteClass::Digit);
        if !neg && d - d0 == 4 && d < s.len() && s[d] == 45 {
            timestamp_at(s, i, d)
        } else if d < s.len() && (s[d] == 46 || s[d] == 101 || s[d] == 69) {
            float_at(s, i, d)
        } else if d < s.len() && is_duration_unit(s[d]) {
            duration_at(s, i, d)
        } else {
            (TokenKind::Int, text_of(s, i, d), d)
        }
    }
}

// ---------------------------------------------------------------- strings
/// The byte a one-letter escape stands for.
pub open spec fn simple_escape(e: u8) -> Option<u8> {
    if e == 34 || e == 92 || e == 39 || e == 63 {
        Some(e)
    } else if e == 97 {
        Some(7)
    } else if e == 98 {
        Some(8)
    } else if e == 102 {
        Some(12)
    } else if e == 110 {
        Some(10)
    } else if e == 114 {
        Some(13)
    } else if e == 116 {
        Some(9)
    } else if e == 118 {
        Some(11)
    } else {
        None
    }
}

pub open spec fn is_hex(c: u8) -> bool {
    (48 <= c <= 57) || (97 <= c <= 102) || (65 <= c <= 70)
}

pub open spec fn hex_of(c: u8) -> nat {
    if 48 <= c <= 57 {
        (c - 48) as nat
    } else if 97 <= c <= 102 {
        (c - 97 + 10) as nat
    } else {
        (c - 65 + 10) as nat
    }
}

pub open spec fn is_oct(c: u8) -> bool {
    48 <= c <= 55
}

/// Whether `n` hex digits start at `j`.
pub open spec fn hex_digits_at(s: Seq<u8>, j: int, n: int) -> bool {
    j + n <= s.len() && forall|k: int| j <= k < j + n ==> is_hex(#[trigger] s[k])
}

/// The value of the `n` hex digits at `j`.
pub open spec fn hex_value(s: Seq<u8>, j: int, n: int) -> nat
    decreases n,
{
    if n <= 0 {
        0
    } else {
        hex_value(s, j, n - 1) * 16 + hex_of(s[j + n - 1])
    }
}

/// A Unicode scalar value: at most U+10FFFF and not a surrogate.
pub open spec fn is_valid_rune(r: nat) -> bool {
    r <= 0x10FFFF && !(0xD800 <= r <= 0xDFFF)
}

/// How many of the `n` bytes from `j` on are hex digits before the first
/// that is not.
pub open spec fn hex_run(s: Seq<u8>, j: int, n: int) -> int
    decreases n,
{
    if n <= 0 || j < 0 || j >= s.len() || !is_hex(s[j]) {
        0
    } else {
        1 + hex_run(s, j + 1, n - 1)
    }
}

/// Where a `\u` / `\U` escape with `n` digits from `j` stops when it fails:
/// at `j` when fewer than `n` bytes remain, else past the hex digits read.
pub open spec fn rune_escape_fail_end(s: Seq<u8>, j: int, n: int) -> int {
    if j + n > s.len() {
        j
    } else {
        j + hex_run(s, j, n)
    }
}

/// Decodes the body of a `"..."` string from `j` on, `acc` holding the bytes
/// decoded so far: the bytes and the offset past the closing quote, or the
/// message of the malformed escape or missing quote and where reading
/// stopped.
pub open spec fn string_body(s: Seq<u8>, j: int, acc: Seq<u8>) -> Result<
    (Seq<u8>, int),
    (Seq<char>, int),
>
    decreases s.len() - j,
{
    if j < 0 || j >= s.len() {
        Err(("unterminated string"@, j))
    } else if s[j] == 34 {
        Ok((acc, j + 1))
    } else if s[j] != 92 {
        string_body(s, j + 1, acc.push(s[j]))
    } else if j + 1 >= s.len() {
        Err(("unterminated escape sequence"@, j + 1))
    } else {
        let e = s[j + 1];
        if simple_escape(e) is Some {
            string_body(s, j + 2, acc.push(simple_escape(e)->0))
        } else if e == 120 {
            if j + 3 < s.len() && is_hex(s[j + 2]) && is_hex(s[j + 3]) {
                string_body(s, j + 4, acc.push((hex_of(s[j + 2]) * 16 + hex_of(s[j + 3])) as u8))
            } else {
                Err(("invalid \\x escape: expected 2 hex digits"@, j + 2))
            }
        } else if 48 <= e <= 51 {
            if j + 3 < s.len() && is_oct(s[j + 2]) && is_oct(s[j + 3]) {
                string_body(
                    s,
                    j + 4,
                    acc.push(((e - 48) * 64 + (s[j + 2] - 48) * 8 + (s[j + 3] - 48)) as u8),
                )
            } else {
                Err(("invalid octal escape: expected 3 octal digits"@, j + 2))
            }
        } else if e == 117 {
            if hex_digits_at(s, j + 2, 4) && is_valid_rune(hex_value(s, j + 2, 4)) {
                string_body(s, j + 6, acc + encode_scalar(hex_value(s, j + 2, 4) as u32))
            } else {
                Err(
                    (
                        "invalid \\u escape: expected 4 hex digits forming a valid codepoint"@,
                        rune_escape_fail_end(s, j + 2, 4),
                    ),
                )
            }
        } else if e == 85 {
            if hex_digits_at(s, j + 2, 8) && is_valid_rune(hex_value(s, j + 2, 8)) {
                string_body(s, j + 10, acc + encode_scalar(hex_value(s, j + 2, 8) as u32))
            } else {
                Err(
                    (
                        "invalid \\U escape: expected 8 hex digits forming a valid codepoint"@,
                        rune_escape_fail_end(s, j + 2, 8),
                    ),
                )
            }
        } else {
            Err(("unknown escape sequence \\"@ + seq![e as char], j + 2))
        }
    }
}

pub open spec fn string_at(s: Seq<u8>, i: int) -> Lexed {
    match string_body(s, i + 1, seq![]) {
        Ok((b, e)) => if valid_utf8(b) {
            (TokenKind::String, decode_utf8(b), e)
        } else {
            (TokenKind::Illegal, "string contains invalid UTF-8"@, e)
        },
        Err((m, e)) => (TokenKind::Illegal, m, e),
    }
}

/// The token that starts at offset `i` (spaces already skipped).
pub open spec fn token_at(s: Seq<u8>, i: int) -> Lexed {
    if i >= s.len() {
        (TokenKind::Eof, seq![], i)
    } else {
        let c = s[i];
        let c1 = byte_at(s, i + 1);
        if c == 10 {
            (TokenKind::Newline, seq![], i + 1)
        } else if c == 35 || (c == 47 && c1 == 47) {
            line_comment_at(s, i)
        } else if c == 47 && c1 == 42 {
            block_comment_at(s, i)
        } else if c == 34 {
            if c1 == 34 && byte_at(s, i + 2) == 34 {
                triple_string_at(s, i)
            } else {
                string_at(s, i)
            }
        } else if c == 98 && c1 == 34 {
            bytes_at(s, i)
        } else if punct_kind(c) is Some {
            (punct_kind(c)->0, seq![c as char], i + 1)
        } else if c == 64 {
            directive_at(s, i)
        } else if c == 45 || is_digit(c) {
            number_at(s, i)
        } else if is_ident_start(c) {
            ident_at(s, i)
        } else {
            (TokenKind::Illegal, seq![c as char], i + 1)
        }
    }
}

/// Whether token `t` is what `r` describes.
pub open spec fn lexed_as(t: Token, r: Lexed) -> bool {
    t.kind == r.0 && t.value@ == r.1
}

pub open spec fn pow16(k: nat) -> nat
    decreases k,
{
    if k == 0 {
        1
    } else {
        16 * pow16((k - 1) as nat)
    }
}

proof fn lemma_pow16_small(k: nat)
    requires
        k <= 7,
    ensures
        pow16(k) <= 0x1000_0000,
{
    reveal_with_fuel(pow16, 8);
}

proof fn lemma_hex_run_full(s: Seq<u8>, j: int, n: int)
    requires
        0 <= j,
        0 <= n,
        hex_digits_at(s, j, n),
    ensures
        hex_run(s, j, n) == n,
    decreases n,
{
    if n > 0 {
        assert(is_hex(s[j]));
        assert(hex_digits_at(s, j + 1, n - 1));
        lemma_hex_run_full(s, j + 1, n - 1);
    }
}

/// Whether `toks` is what the lexer yields from offset `i` up to and
/// including the end-of-input token.
pub open spec fn lexes(s: Seq<u8>, i: int, toks: Seq<Token>) -> bool
    decreases toks.len(),
{
    if toks.len() == 0 {
        false
    } else {
        let st = scan(s, i, ByteClass::Space);
        let r = token_at(s, st);
        &&& lexed_as(toks[0], r)
        &&& toks[0].pos == position_at(s, st)
        &&& if r.0 == TokenKind::Eof {
            toks.len() == 1
        } else {
            lexes(s, r.2, toks.drop_first())
        }
    }
}

/// The offset the lexer reaches from `i` after yielding `toks`, none of
/// them the end-of-input token; `None` when it would yield something else.
pub open spec fn lexes_to(s: Seq<u8>, i: int, toks: Seq<Token>) -> Option<int>
    decreases toks.len(),
{
    if toks.len() == 0 {
        Some(i)
    } else {
        let st = scan(s, i, ByteClass::Space);
        let r = token_at(s, st);
        if lexed_as(toks[0], r) && toks[0].pos == position_at(s, st) && r.0 != TokenKind::Eof {
            lexes_to(s, r.2, toks.drop_first())
        } else {
            None
        }
    }
}

proof fn lemma_lexes_to_push(s: Seq<u8>, i: int, toks: Seq<Token>, t: Token, j: int)
    requires
        lexes_to(s, i, toks) == Some(j),
        ({
            let st = scan(s, j, ByteClass::Space);
            let r = token_at(s, st);
            lexed_as(t, r) && t.pos == position_at(s, st)
        }),
    ensures
        token_at(s, scan(s, j, ByteClass::Space)).0 != TokenKind::Eof ==> lexes_to(
            s,
            i,
            toks.push(t),
        ) == Some(token_at(s, scan(s, j, ByteClass::Space)).2),
        token_at(s, scan(s, j, ByteClass::Space)).0 == TokenKind::Eof ==> lexes(s, i, toks.push(t)),
    decreases toks.len(),
{
    let tt = toks.push(t);
    if toks.len() > 0 {
        let st = scan(s, i, ByteClass::Space);
        let r = token_at(s, st);
        assert(tt[0] == toks[0]);
        assert(tt.drop_first() == toks.drop_first().push(t));
        lemma_lexes_to_push(s, r.2, toks.drop_first(), t, j);
    } else {
        assert(i == j);
        assert(tt[0] == t);
        assert(tt.drop_first() =~= Seq::<Token>::empty());
        let r = token_at(s, scan(s, j, ByteClass::Space));
        if r.0 != TokenKind::Eof {
            assert(lexes_to(s, r.2, tt.drop_first()) == Some(r.2));
        }
    }
}

// ---------------------------------------------------------------- literals
pub open spec fn digits_at(b: Seq<u8>, a: int, e: int) -> bool {
    forall|k: int| a <= k < e ==> is_digit(#[trigger] b[k])
}

/// The value of the decimal digits `b[a..e]`.
pub open spec fn decimal_value(b: Seq<u8>, a: int, e: int) -> nat
    decreases e - a,
{
    if e <= a {
        0
    } else {
        decimal_value(b, a, e - 1) * 10 + (b[e - 1] - 48) as nat
    }
}

pub open spec fn is_leap_year(y: nat) -> bool {
    (y % 4 == 0 && y % 100 != 0) || y % 400 == 0
}

pub open spec fn month_days(y: nat, m: nat) -> nat {
    if m == 1 || m == 3 || m == 5 || m == 7 || m == 8 || m == 10 || m == 12 {
        31
    } else if m == 4 || m == 6 || m == 9 || m == 11 {
        30
    } else if m == 2 {
        if is_leap_year(y) {
            29
        } else {
            28
        }
    } else {
        0
    }
}

/// `YYYY-MM-DDTHH:MM:SS` shape of the first 19 bytes.
pub open spec fn rfc3339_shape(b: Seq<u8>) -> bool {
    &&& b.len() >= 20
    &&& digits_at(b, 0, 4)
    &&& b[4] == 45
    &&& digits_at(b, 5, 7)
    &&& b[7] == 45
    &&& digits_at(b, 8, 10)
    &&& (b[10] == 84 || b[10] == 116)
    &&& digits_at(b, 11, 13)
    &&& b[13] == 58
    &&& digits_at(b, 14, 16)
    &&& b[16] == 58
    &&& digits_at(b, 17, 19)
}

/// The offset of the zone designator: past the fractional seconds if there
/// are any, -1 for a `.` without digits.
pub open spec fn rfc3339_zone_start(b: Seq<u8>) -> int {
    if b[19] == 46 {
        let e = scan(b, 20, ByteClass::Digit);
        if e == 20 {
            -1
        } else {
            e
        }
    } else {
        19
    }
}

/// `Z` / `z` ending the text, or a `+HH:MM` / `-HH:MM` offset ending it.
pub open spec fn rfc3339_zone(b: Seq<u8>, i: int) -> bool {
    0 <= i < b.len() && (((b[i] == 90 || b[i] == 122) && i + 1 == b.len()) || ((b[i] == 43 || b[i]
        == 45) && b.len() == i + 6 && digits_at(b, i + 1, i + 3) && b[i + 3] == 58 && digits_at(
        b,
        i + 4,
        i + 6,
    ) && decimal_value(b, i + 1, i + 3) <= 23 && decimal_value(b, i + 4, i + 6) <= 59))
}

/// An RFC 3339 timestamp with calendar fields in range (leap years counted)
/// and a leap second allowed.
pub open spec fn valid_rfc3339(b: Seq<u8>) -> bool {
    &&& rfc3339_shape(b)
    &&& 1 <= decimal_value(b, 5, 7) <= 12
    &&& 1 <= decimal_value(b, 8, 10) <= month_days(decimal_value(b, 0, 4), decimal_value(b, 5, 7))
    &&& decimal_value(b, 11, 13) <= 23
    &&& decimal_value(b, 14, 16) <= 59
    &&& decimal_value(b, 17, 19) <= 60
    &&& rfc3339_zone(b, rfc3339_zone_start(b))
}

/// The length of the duration unit at `f`: two for `ns`, `us`, `ms`, one for
/// `s`, `m`, `h`, zero for anything else.
pub open spec fn unit_len(b: Seq<u8>, f: int) -> int {
    let c = b[f];
    let n = byte_at(b, f + 1);
    if (c == 110 || c == 117 || c == 109) && n == 115 {
        2
    } else if c == 115 || c == 109 || c == 104 {
        1
    } else {
        0
    }
}

/// One or more `<digits>[.<digits>]<unit>` groups from `i` to the end.
pub open spec fn duration_groups(b: Seq<u8>, i: int) -> bool
    decreases b.len() - i,
{
    if 0 <= i < b.len() {
        let d = scan(b, i, ByteClass::Digit);
        let dot = d < b.len() && b[d] == 46;
        let f = if dot {
            scan(b, d + 1, ByteClass::Digit)
        } else {
            d
        };
        if d > i && (!dot || f > d + 1) && f < b.len() && unit_len(b, f) > 0 {
            proof {
                lemma_scan(b, i, ByteClass::Digit);
                if dot {
                    lemma_scan(b, d + 1, ByteClass::Digit);
                }
            }
            f + unit_len(b, f) >= b.len() || duration_groups(b, f + unit_len(b, f))
        } else {
            false
        }
    } else {
        false
    }
}

/// A Go duration: an optional sign, then one or more groups.
pub open spec fn valid_go_duration(b: Seq<u8>) -> bool {
    b.len() > 0 && {
        let i = if b[0] == 45 || b[0] == 43 {
            1int
        } else {
            0int
        };
        i < b.len() && duration_groups(b, i)
    }
}

// ---------------------------------------------------------------- dedent
/// Unicode `White_Space`, the set `char::is_whitespace` tests.
pub open spec fn is_white_space(c: char) -> bool {
    let u = c as u32;
    (9 <= u <= 13) || u == 32 || u == 0x85 || u == 0xA0 || u == 0x1680 || (0x2000 <= u <= 0x200A)
        || u == 0x2028 || u == 0x2029 || u == 0x202F || u == 0x205F || u == 0x3000
}

pub open spec fn all_white_space(t: Seq<char>) -> bool {
    forall|k: int| 0 <= k < t.len() ==> is_white_space(#[trigger] t[k])
}

/// The index of the last newline, or -1.
pub open spec fn last_newline(t: Seq<char>) -> int
    decreases t.len(),
{
    if t.len() == 0 {
        -1
    } else if t.last() == '\n' {
        t.len() - 1
    } else {
        last_newline(t.drop_last())
    }
}

/// The index of the first newline at or after `i`, or the length.
pub open spec fn next_newline(t: Seq<char>, i: int) -> int
    decreases t.len() - i,
{
    if 0 <= i < t.len() && t[i] != '\n' {
        next_newline(t, i + 1)
    } else {
        i
    }
}

/// `line` without the leading `indent`, when it starts with it.
pub open spec fn strip_indent(line: Seq<char>, indent: Seq<char>) -> Seq<char> {
    if indent.len() <= line.len() && line.subrange(0, indent.len() as int) == indent {
        line.subrange(indent.len() as int, line.len() as int)
    } else {
        line
    }
}

/// Every line of `t` with `indent` stripped.
pub open spec fn strip_lines(t: Seq<char>, indent: Seq<char>) -> Seq<char>
    decreases t.len(),
{
    let k = next_newline(t, 0);
    if k >= t.len() {
        strip_indent(t, indent)
    } else {
        proof {
            lemma_next_newline(t, 0);
        }
        strip_indent(t.subrange(0, k), indent) + seq!['\n'] + strip_lines(
            t.subrange(k + 1, t.len() as int),
            indent,
        )
    }
}

/// The body of a triple-quoted string: one leading newline dropped; when
/// the last line is all white space it is removed and its text stripped
/// from the start of every other line.
pub open spec fn dedent(t: Seq<char>) -> Seq<char> {
    let u = if t.len() > 0 && t[0] == '\n' {
        t.drop_first()
    } else {
        t
    };
    let p = last_newline(u);
    let last = u.subrange(p + 1, u.len() as int);
    if all_white_space(last) {
        if p < 0 {
            seq![]
        } else {
            strip_lines(u.subrange(0, p), last)
        }
    } else {
        u
    }
}

pub proof fn lemma_next_newline(t: Seq<char>, i: int)
    requires
        0 <= i <= t.len(),
    ensures
        i <= next_newline(t, i) <= t.len(),
        next_newline(t, i) < t.len() ==> t[next_newline(t, i)] == '\n',
        forall|k: int| i <= k < next_newline(t, i) ==> t[k] != '\n',
    decreases t.len() - i,
{
    if i < t.len() && t[i] != '\n' {
        lemma_next_newline(t, i + 1);
    }
}

pub proof fn lemma_scan(s: Seq<u8>, i: int, k: ByteClass)
    requires
        0 <= i <= s.len(),
    ensures
        i <= scan(s, i, k) <= s.len(),
        scan(s, i, k) < s.len() ==> !in_class(s[scan(s, i, k)], k),
        forall|j: int| i <= j < scan(s, i, k) ==> in_class(#[trigger] s[j], k),
    decreases s.len() - i,
{
    if i < s.len() && in_class(s[i], k) {
        lemma_scan(s, i + 1, k);
    }
}

// ---------------------------------------------------------------- positions
/// The 1-based line of byte offset `i`.
pub open spec fn line_at(s: Seq<u8>, i: int) -> int
    decreases i,
{
    if i <= 0 {
        1
    } else {
        line_at(s, i - 1) + if s[i - 1] == 10 {
            1int
        } else {
            0int
        }
    }
}

/// The 1-based column of byte offset `i`, counted in bytes.
pub open spec fn col_at(s: Seq<u8>, i: int) -> int
    decreases i,
{
    if i <= 0 {
        1
    } else if s[i - 1] == 10 {
        1
    } else {
        col_at(s, i - 1) + 1
    }
}

/// The position a token starting at byte offset `i` carries.
pub open spec fn position_at(s: Seq<u8>, i: int) -> Position {
    Position { line: line_at(s, i) as usize, column: col_at(s, i) as usize, offset: 0 }
}

proof fn lemma_line_col_bound(s: Seq<u8>, i: int)
    requires
        0 <= i <= s.len(),
    ensures
        1 <= line_at(s, i) <= i + 1,
        1 <= col_at(s, i) <= i + 1,
    decreases i,
{
    if i > 0 {
        lemma_line_col_bound(s, i - 1);
    }
}

// ---------------------------------------------------------------- UTF-8
/// An offset is a character boundary when it is an end of the input, or the
/// byte there or the byte before it is ASCII.
pub proof fn lemma_ascii_boundary(s: Seq<u8>, i: int)
    requires
        valid_utf8(s),
        0 <= i <= s.len(),
        i == 0 || i == s.len() || s[i] < 0x80 || s[i - 1] < 0x80,
    ensures
        is_char_boundary(s, i),
{
    if i == 0 || i == s.len() {
        is_char_boundary_start_end_of_seq(s);
    } else if s[i] < 0x80 {
        is_char_boundary_iff_not_is_continuation_byte(s, i);
    } else {
        is_char_boundary_iff_not_is_continuation_byte(s, i - 1);
        valid_utf8_split(s, i - 1);
        let t = s.subrange(i - 1, s.len() as int);
        assert(valid_utf8(t));
        assert(t.len() > 1);
        assert(t[0] == s[i - 1]);
        assert(length_of_first_scalar(t) == 1);
        let u = pop_first_scalar(t);
        assert(u =~= s.subrange(i, s.len() as int));
        assert(u.len() > 0);
        assert(valid_utf8(u));
        assert(valid_first_scalar(u));
        assert(u[0] == s[i]);
        is_char_boundary_iff_not_is_continuation_byte(s, i);
    }
}

/// The bytes between two character boundaries are UTF-8.
pub proof fn lemma_slice_valid(s: Seq<u8>, a: int, b: int)
    requires
        valid_utf8(s),
        0 <= a <= b <= s.len(),
        is_char_boundary(s, a),
        is_char_boundary(s, b),
    ensures
        valid_utf8(s.subrange(a, b)),
{
    valid_utf8_split(s, b);
    let p = s.subrange(0, b);
    if a == b {
        assert(s.subrange(a, b).len() == 0);
    } else {
        is_char_boundary_iff_not_is_continuation_byte(s, a);
        assert(p[a] == s[a]);
        is_char_boundary_iff_not_is_continuation_byte(p, a);
        valid_utf8_split(p, a);
        assert(p.subrange(a, b) =~= s.subrange(a, b));
    }
}

/// The text of bytes `a..b` of `input`, both ends being character boundaries.
fn utf8_slice(input: &[u8], a: usize, b: usize) -> (r: String)
    requires
        valid_utf8(input@),
        a <= b <= input@.len(),
        is_char_boundary(input@, a as int),
        is_char_boundary(input@, b as int),
    ensures
        r@ == text_of(input@, a as int, b as int),
{
    let mut v: Vec<u8> = Vec::with_capacity(b - a);
    let mut k = a;
    while k < b
        invariant
            a <= k <= b,
            b <= input@.len(),
            v@ == input@.subrange(a as int, k as int),
        decreases b - k,
    {
        v.push(input[k]);
        k = k + 1;
        assert(input@.subrange(a as int, k as int) == input@.subrange(a as int, k - 1).push(
            input@[k - 1],
        ));
    }
    proof {
        lemma_slice_valid(input@, a as int, b as int);
    }
    match string_from_utf8(v) {
        Ok(s) => s,
        Err(_) => String::new(),
    }
}

// ---------------------------------------------------------------- byte tests
fn digit(c: u8) -> (r: bool)
    ensures
        r == is_digit(c),
{
    c >= 48 && c <= 57
}

fn ident_start(c: u8) -> (r: bool)
    ensures
        r == is_ident_start(c),
{
    (c >= 97 && c <= 122) || (c >= 65 && c <= 90) || c == 95
}

fn ident_part(c: u8) -> (r: bool)
    ensures
        r == is_ident_part(c),
{
    ident_start(c) || digit(c) || c == 46
}

fn duration_unit(c: u8) -> (r: bool)
    ensures
        r == is_duration_unit(c),
{
    c == 104 || c == 109 || c == 115 || c == 110 || c == 117
}

fn lower(c: u8) -> (r: bool)
    ensures
        r == is_lower(c),
{
    c >= 97 && c <= 122
}

// ---------------------------------------------------------------- helpers
/// Bytes `a..b` of `input`.
fn copy_range(input: &[u8], a: usize, b: usize) -> (v: Vec<u8>)
    requires
        a <= b <= input@.len(),
    ensures
        v@ == input@.subrange(a as int, b as int),
{
    let mut v: Vec<u8> = Vec::with_capacity(b - a);
    let mut k = a;
    while k < b
        invariant
            a <= k <= b,
            b <= input@.len(),
            v@ == input@.subrange(a as int, k as int),
        decreases b - k,
    {
        v.push(input[k]);
        k = k + 1;
        assert(input@.subrange(a as int, k as int) == input@.subrange(a as int, k - 1).push(
            input@[k - 1],
        ));
    }
    v
}

/// The end of the run of class `k` in `b` from `i`.
fn scan_bytes(b: &[u8], i: usize, k: ByteClass) -> (e: usize)
    requires
        i <= b@.len(),
    ensures
        e == scan(b@, i as int, k),
{
    let mut j = i;
    while j < b.len()
        invariant
            i <= j <= b@.len(),
            scan(b@, i as int, k) == scan(b@, j as int, k),
        decreases b@.len() - j,
    {
        let c = b[j];
        let keep = match k {
            ByteClass::Space => c == 32 || c == 9 || c == 13,
            ByteClass::Digit => digit(c),
            ByteClass::IdentPart => ident_part(c),
            ByteClass::NotNewline => c != 10,
            ByteClass::DigitOrLower => digit(c) || lower(c),
        };
        if !keep {
            return j;
        }
        j = j + 1;
    }
    j
}

fn hex_val(c: u8) -> (r: Option<u32>)
    ensures
        r is Some <==> is_hex(c),
        r matches Some(v) ==> v == hex_of(c) && v < 16,
{
    if c >= 48 && c <= 57 {
        Some((c - 48) as u32)
    } else if c >= 97 && c <= 102 {
        Some((c - 97) as u32 + 10)
    } else if c >= 65 && c <= 70 {
        Some((c - 65) as u32 + 10)
    } else {
        None
    }
}

fn oct_val(c: u8) -> (r: Option<u32>)
    ensures
        r is Some <==> is_oct(c),
        r matches Some(v) ==> v == c - 48,
{
    if c >= 48 && c <= 55 {
        Some((c - 48) as u32)
    } else {
        None
    }
}

fn valid_rune(r: u32) -> (b: bool)
    ensures
        b == is_valid_rune(r as nat),
{
    r <= 0x10FFFF && !(r >= 0xD800 && r <= 0xDFFF)
}

fn escape_byte(e: u8) -> (r: Option<u8>)
    ensures
        r == simple_escape(e),
{
    if e == 34 || e == 92 || e == 39 || e == 63 {
        Some(e)
    } else if e == 97 {
        Some(7)
    } else if e == 98 {
        Some(8)
    } else if e == 102 {
        Some(12)
    } else if e == 110 {
        Some(10)
    } else if e == 114 {
        Some(13)
    } else if e == 116 {
        Some(9)
    } else if e == 118 {
        Some(11)
    } else {
        None
    }
}

/// Appends the UTF-8 encoding of a Unicode scalar.
fn encode_rune(r: u32, out: &mut Vec<u8>)
    requires
        is_valid_rune(r as nat),
    ensures
        final(out)@ == old(out)@ + encode_scalar(r),
{
    if r <= 0x7F {
        out.push((r & 0x7F) as u8);
    } else if r <= 0x7FF {
        out.push(0xC0 | ((r >> 6) & 0x1F) as u8);
        out.push(0x80 | (r & 0x3F) as u8);
    } else if r <= 0xFFFF {
        out.push(0xE0 | ((r >> 12) & 0x0F) as u8);
        out.push(0x80 | ((r >> 6) & 0x3F) as u8);
        out.push(0x80 | (r & 0x3F) as u8);
    } else {
        out.push(0xF0 | ((r >> 18) & 0x7) as u8);
        out.push(0x80 | ((r >> 12) & 0x3F) as u8);
        out.push(0x80 | ((r >> 6) & 0x3F) as u8);
        out.push(0x80 | (r & 0x3F) as u8);
    }
}

fn all_digits(b: &[u8], a: usize, e: usize) -> (r: bool)
    requires
        a <= e <= b@.len(),
    ensures
        r == digits_at(b@, a as int, e as int),
{
    let mut k = a;
    while k < e
        invariant
            a <= k <= e,
            e <= b@.len(),
            digits_at(b@, a as int, k as int),
        decreases e - k,
    {
        if !digit(b[k]) {
            return false;
        }
        k = k + 1;
    }
    true
}

/// The value of at most four decimal digits.
fn dec_value(b: &[u8], a: usize, e: usize) -> (v: u32)
    requires
        a <= e <= b@.len(),
        e - a <= 4,
        digits_at(b@, a as int, e as int),
    ensures
        v == decimal_value(b@, a as int, e as int),
{
    let mut v: u32 = 0;
    let mut k = a;
    while k < e
        invariant
            a <= k <= e,
            e <= b@.len(),
            e - a <= 4,
            digits_at(b@, a as int, e as int),
            v == decimal_value(b@, a as int, k as int),
            k - a == 0 ==> v == 0,
            k - a == 1 ==> v <= 9,
            k - a == 2 ==> v <= 99,
            k - a == 3 ==> v <= 999,
            k - a == 4 ==> v <= 9999,
        decreases e - k,
    {
        assert(is_digit(b@[k as int]));
        v = v * 10 + (b[k] - 48) as u32;
        k = k + 1;
    }
    v
}

fn leap_year(y: u32) -> (r: bool)
    ensures
        r == is_leap_year(y as nat),
{
    (y % 4 == 0 && y % 100 != 0) || y % 400 == 0
}

fn days_in_month(y: u32, m: u32) -> (d: u32)
    ensures
        d == month_days(y as nat, m as nat),
{
    if m == 1 || m == 3 || m == 5 || m == 7 || m == 8 || m == 10 || m == 12 {
        31
    } else if m == 4 || m == 6 || m == 9 || m == 11 {
        30
    } else if m == 2 {
        if leap_year(y) {
            29
        } else {
            28
        }
    } else {
        0
    }
}

/// Whether `b` is an RFC 3339 timestamp with in-range calendar fields.
pub fn is_valid_rfc3339(b: &[u8]) -> (r: bool)
    ensures
        r == valid_rfc3339(b@),
{
    let n = b.len();
    if n < 20 {
        return false;
    }
    if !(all_digits(b, 0, 4) && b[4] == 45 && all_digits(b, 5, 7) && b[7] == 45 && all_digits(
        b,
        8,
        10,
    ) && (b[10] == 84 || b[10] == 116) && all_digits(b, 11, 13) && b[13] == 58 && all_digits(
        b,
        14,
        16,
    ) && b[16] == 58 && all_digits(b, 17, 19)) {
        return false;
    }
    let year = dec_value(b, 0, 4);
    let month = dec_value(b, 5, 7);
    let day = dec_value(b, 8, 10);
    let hour = dec_value(b, 11, 13);
    let minute = dec_value(b, 14, 16);
    let second = dec_value(b, 17, 19);
    if month < 1 || month > 12 {
        return false;
    }
    let max_day = days_in_month(year, month);
    if day < 1 || day > max_day {
        return false;
    }
    if hour > 23 || minute > 59 || second > 60 {
        return false;
    }
    let mut i: usize = 19;
    if b[i] == 46 {
        i = scan_bytes(b, 20, ByteClass::Digit);
        if i == 20 {
            return false;
        }
    }
    proof {
        lemma_scan(b@, 20, ByteClass::Digit);
    }
    assert(i == rfc3339_zone_start(b@));
    if i >= n {
        return false;
    }
    if b[i] == 90 || b[i] == 122 {
        return i + 1 == n;
    }
    if b[i] == 43 || b[i] == 45 {
        if n - i != 6 {
            return false;
        }
        if !all_digits(b, i + 1, i + 3) || b[i + 3] != 58 || !all_digits(b, i + 4, i + 6) {
            return false;
        }
        let off_h = dec_value(b, i + 1, i + 3);
        let off_m = dec_value(b, i + 4, i + 6);
        return off_h <= 23 && off_m <= 59;
    }
    false
}

/// Whether `b` is a Go duration: an optional sign, then one or more
/// `<digits>[.<digits>]<unit>` groups with unit one of `ns us ms s m h`.
pub fn is_valid_go_duration(b: &[u8]) -> (r: bool)
    ensures
        r == valid_go_duration(b@),
{
    let n = b.len();
    if n == 0 {
        return false;
    }
    let mut i: usize = if b[0] == 45 || b[0] == 43 {
        1
    } else {
        0
    };
    if i >= n {
        return false;
    }
    assert(valid_go_duration(b@) == duration_groups(b@, i as int));
    loop
        invariant
            i < n,
            n == b@.len(),
            valid_go_duration(b@) == duration_groups(b@, i as int),
        decreases n - i,
    {
        let d = scan_bytes(b, i, ByteClass::Digit);
        proof {
            lemma_scan(b@, i as int, ByteClass::Digit);
        }
        if d == i {
            return false;
        }
        let dot = d < n && b[d] == 46;
        let mut f = d;
        if dot {
            f = scan_bytes(b, d + 1, ByteClass::Digit);
            proof {
                lemma_scan(b@, d + 1, ByteClass::Digit);
            }
            if f == d + 1 {
                return false;
            }
        }
        if f >= n {
            return false;
        }
        let c = b[f];
        let next: u8 = if f + 1 < n {
            b[f + 1]
        } else {
            0
        };
        let u: usize = if (c == 110 || c == 117 || c == 109) && next == 115 {
            2
        } else if c == 115 || c == 109 || c == 104 {
            1
        } else {
            0
        };
        assert(u == unit_len(b@, f as int));
        if u == 0 {
            return false;
        }
        if u >= n - f {
            return true;
        }
        i = f + u;
    }
}

fn white_space(c: char) -> (r: bool)
    ensures
        r == is_white_space(c),
{
    let u = c as u32;
    (u >= 9 && u <= 13) || u == 32 || u == 0x85 || u == 0xA0 || u == 0x1680 || (u >= 0x2000 && u
        <= 0x200A) || u == 0x2028 || u == 0x2029 || u == 0x202F || u == 0x205F || u == 0x3000
}

/// Appends characters `a..b` of `t`.
fn push_range(out: &mut String, t: &Vec<char>, a: usize, b: usize)
    requires
        a <= b <= t@.len(),
    ensures
        final(out)@ == old(out)@ + t@.subrange(a as int, b as int),
{
    let ghost o = old(out)@;
    let mut k = a;
    while k < b
        invariant
            a <= k <= b,
            b <= t@.len(),
            out@ == o + t@.subrange(a as int, k as int),
        decreases b - k,
    {
        push_char(out, t[k]);
        k = k + 1;
        assert(t@.subrange(a as int, k as int) == t@.subrange(a as int, k - 1).push(t@[k - 1]));
    }
}

/// Whether characters `a..k` of `t` begin with characters `j..t.len()`.
fn starts_with_range(t: &Vec<char>, a: usize, k: usize, j: usize) -> (r: bool)
    requires
        a <= k <= t@.len(),
        j <= t@.len(),
    ensures
        r == ({
            let line = t@.subrange(a as int, k as int);
            let ind = t@.subrange(j as int, t@.len() as int);
            ind.len() <= line.len() && line.subrange(0, ind.len() as int) == ind
        }),
{
    let m = t.len() - j;
    if m > k - a {
        return false;
    }
    let mut q: usize = 0;
    while q < m
        invariant
            q <= m,
            m == t@.len() - j,
            j + m == t.len(),
            m <= k - a,
            a <= k <= t@.len(),
            t@.subrange(a as int, a + q) == t@.subrange(j as int, j + q),
        decreases m - q,
    {
        if t[a + q] != t[j + q] {
            let ghost line = t@.subrange(a as int, k as int);
            let ghost ind = t@.subrange(j as int, t@.len() as int);
            assert(line.subrange(0, ind.len() as int)[q as int] != ind[q as int]);
            return false;
        }
        assert(t@.subrange(a as int, a + q + 1) == t@.subrange(a as int, a + q).push(t@[a + q]));
        assert(t@.subrange(j as int, j + q + 1) == t@.subrange(j as int, j + q).push(t@[j + q]));
        q = q + 1;
    }
    let ghost line = t@.subrange(a as int, k as int);
    assert(line.subrange(0, m as int) == t@.subrange(a as int, a + m));
    let ghost ind = t@.subrange(j as int, t@.len() as int);
    assert(line.subrange(0, ind.len() as int) =~= ind);
    true
}

/// Whether characters `j..` of `t` are all white space.
fn all_white_space_from(t: &Vec<char>, j: usize) -> (r: bool)
    requires
        j <= t@.len(),
    ensures
        r == all_white_space(t@.subrange(j as int, t@.len() as int)),
{
    let n = t.len();
    let mut q = j;
    while q < n
        invariant
            j <= q <= n,
            n == t@.len(),
            all_white_space(t@.subrange(j as int, q as int)),
        decreases n - q,
    {
        if !white_space(t[q]) {
            assert(!is_white_space(t@.subrange(j as int, n as int)[q - j]));
            return false;
        }
        q = q + 1;
    }
    true
}

/// The body of a triple-quoted string, dedented.
pub fn dedent_text(raw: &str) -> (r: String)
    ensures
        r@ == dedent(raw@),
{
    let t = chars_of(raw);
    let n = t.len();
    let start: usize = if n > 0 && t[0] == '\n' {
        1
    } else {
        0
    };
    let ghost u = t@.subrange(start as int, n as int);
    assert(u == if t@.len() > 0 && t@[0] == '\n' {
        t@.drop_first()
    } else {
        t@
    });
    // the start of the last line
    let mut j = n;
    while j > start && t[j - 1] != '\n'
        invariant
            start <= j <= n,
            n == t@.len(),
            u == t@.subrange(start as int, n as int),
            last_newline(u) == last_newline(t@.subrange(start as int, j as int)),
            forall|x: int| j <= x < n ==> t@[x] != '\n',
        decreases j,
    {
        assert(t@.subrange(start as int, j as int).drop_last() == t@.subrange(
            start as int,
            j - 1,
        ));
        j = j - 1;
    }
    proof {
        if j > start {
            assert(t@.subrange(start as int, j as int).last() == '\n');
            assert(last_newline(u) == j - 1 - start);
        } else {
            assert(t@.subrange(start as int, j as int).len() == 0);
            assert(last_newline(u) == -1);
        }
        assert(u.subrange(last_newline(u) + 1, u.len() as int) == t@.subrange(j as int, n as int));
    }
    // whether the last line is all white space
    if !all_white_space_from(&t, j) {
        let mut out = String::new();
        push_range(&mut out, &t, start, n);
        return out;
    }
    let mut out = String::new();
    if j == start {
        return out;
    }
    let end = j - 1;
    let ghost whole = t@.subrange(start as int, end as int);
    let ghost ind = t@.subrange(j as int, n as int);
    assert(u.subrange(0, j - 1 - start) == whole);
    let mut a = start;
    assert(t@.subrange(a as int, end as int) == whole);
    assert(dedent(raw@) == strip_lines(whole, ind));
    loop
        invariant
            dedent(raw@) == strip_lines(whole, ind),
            start <= a <= end,
            end < j <= n,
            n == t@.len(),
            whole == t@.subrange(start as int, end as int),
            ind == t@.subrange(j as int, n as int),
            out@ + strip_lines(t@.subrange(a as int, end as int), ind) == strip_lines(whole, ind),
        decreases end - a,
    {
        let ghost v = t@.subrange(a as int, end as int);
        let mut k = a;
        while k < end && t[k] != '\n'
            invariant
                a <= k <= end,
                end < n,
                n == t@.len(),
                v == t@.subrange(a as int, end as int),
                next_newline(v, 0) == next_newline(v, k - a),
            decreases end - k,
        {
            k = k + 1;
        }
        proof {
            lemma_next_newline(v, 0);
            assert(next_newline(v, 0) == k - a);
            assert(v.subrange(0, k - a) == t@.subrange(a as int, k as int));
        }
        let ghost line = t@.subrange(a as int, k as int);
        if starts_with_range(&t, a, k, j) {
            push_range(&mut out, &t, a + (n - j), k);
            assert(t@.subrange((a + (n - j)) as int, k as int) == line.subrange(
                ind.len() as int,
                line.len() as int,
            ));
        } else {
            push_range(&mut out, &t, a, k);
        }
        assert(strip_indent(line, ind) == strip_indent(v.subrange(0, k - a), ind));
        if k >= end {
            assert(v == line);
            return out;
        }
        push_char(&mut out, '\n');
        proof {
            assert(v.subrange(k - a + 1, v.len() as int) == t@.subrange(k + 1, end as int));
            assert(out@ + strip_lines(t@.subrange(k + 1, end as int), ind) == strip_lines(
                whole,
                ind,
            ));
        }
        a = k + 1;
    }
}

// ---------------------------------------------------------------- the lexer
/// A tokenizer over the bytes of one input.
pub struct Lexer<'a> {
    input: &'a [u8],
    pos: usize,
    line: usize,
    col: usize,
}

impl<'a> Lexer<'a> {
    #[verifier::type_invariant]
    spec fn inv(self) -> bool {
        &&& self.pos <= self.input@.len()
        &&& self.input@.len() < usize::MAX
        &&& valid_utf8(self.input@)
        &&& self.line == line_at(self.input@, self.pos as int)
        &&& self.col == col_at(self.input@, self.pos as int)
    }

    /// The bytes being tokenized.
    pub closed spec fn source(&self) -> Seq<u8> {
        self.input@
    }

    /// The offset of the next byte to read.
    pub closed spec fn offset(&self) -> int {
        self.pos as int
    }

    pub fn new(input: &'a str) -> (l: Lexer<'a>)
        requires
            input.spec_bytes().len() < usize::MAX,
        ensures
            l.source() == input.spec_bytes(),
            l.offset() == 0,
            l.source().len() < usize::MAX,
    {
        let bytes = input.as_bytes();
        proof {
            encode_utf8_valid_utf8(input@);
        }
        Lexer { input: bytes, pos: 0, line: 1, col: 1 }
    }

    /// The offset of the next byte to read.
    pub fn byte_offset(&self) -> (o: usize)
        ensures
            o == self.offset(),
            o <= self.source().len(),
    {
        proof {
            use_type_invariant(self);
        }
        self.pos
    }

    /// Whether the whole input has been read.
    pub fn at_end(&self) -> (b: bool)
        ensures
            b == (self.offset() >= self.source().len()),
    {
        self.pos >= self.input.len()
    }

    fn peek(&self) -> (c: u8)
        ensures
            c == byte_at(self.source(), self.offset()),
    {
        if self.pos >= self.input.len() {
            0
        } else {
            self.input[self.pos]
        }
    }

    fn peek_at(&self, k: usize) -> (c: u8)
        ensures
            c == byte_at(self.source(), self.offset() + k),
    {
        proof {
            use_type_invariant(self);
        }
        if k >= self.input.len() - self.pos {
            0
        } else {
            self.input[self.pos + k]
        }
    }

    /// Consumes one byte.
    fn advance(&mut self)
        requires
            old(self).offset() < old(self).source().len(),
        ensures
            final(self).source() == old(self).source(),
            final(self).offset() == old(self).offset() + 1,
    {
        proof {
            use_type_invariant(&*self);
            lemma_line_col_bound(self.input@, self.pos as int);
        }
        let ch = self.input[self.pos];
        let (line, col) = if ch == 10 {
            (self.line + 1, 1)
        } else {
            (self.line, self.col + 1)
        };
        *self = Lexer { input: self.input, pos: self.pos + 1, line, col };
    }

    fn current_pos(&self) -> (p: Position)
        ensures
            p == position_at(self.source(), self.offset()),
    {
        proof {
            use_type_invariant(self);
        }
        Position::new(self.line, self.col)
    }

    fn skip_spaces(&mut self)
        ensures
            final(self).source() == old(self).source(),
            final(self).offset() == scan(old(self).source(), old(self).offset(), ByteClass::Space),
    {
        proof {
            use_type_invariant(&*self);
        }
        let ghost s = self.source();
        let ghost start = self.offset();
        while self.pos < self.input.len() && (self.input[self.pos] == 32 || self.input[self.pos]
            == 9 || self.input[self.pos] == 13)
            invariant
                self.source() == s,
                scan(s, start, ByteClass::Space) == scan(s, self.offset(), ByteClass::Space),
            decreases s.len() - self.offset(),
        {
            proof {
                use_type_invariant(&*self);
            }
            self.advance();
        }
        proof {
            use_type_invariant(&*self);
        }
    }

    /// Consumes the run of `k` bytes at the current offset.
    fn skip_class(&mut self, k: ByteClass)
        ensures
            final(self).source() == old(self).source(),
            final(self).offset() == scan(old(self).source(), old(self).offset(), k),
    {
        let ghost s = self.source();
        let ghost start = self.offset();
        loop
            invariant
                self.source() == s,
                s == old(self).source(),
                start == old(self).offset(),
                scan(s, start, k) == scan(s, self.offset(), k),
            decreases s.len() - self.offset(),
        {
            proof {
                use_type_invariant(&*self);
            }
            if self.pos >= self.input.len() {
                return;
            }
            let c = self.input[self.pos];
            let keep = match k {
                ByteClass::Space => c == 32 || c == 9 || c == 13,
                ByteClass::Digit => digit(c),
                ByteClass::IdentPart => ident_part(c),
                ByteClass::NotNewline => c != 10,
                ByteClass::DigitOrLower => digit(c) || lower(c),
            };
            if !keep {
                return;
            }
            self.advance();
        }
    }

    /// Whether the byte at the current offset stops a timestamp literal.
    fn at_timestamp_stop(&self) -> (r: bool)
        requires
            self.offset() < self.source().len(),
        ensures
            r == is_timestamp_stop(self.source(), self.offset()),
    {
        let ch = self.input[self.pos];
        if ch == 32 || ch == 10 || ch == 9 || ch == 13 || ch == 44 || ch == 93 || ch == 125 || ch
            == 35 {
            return true;
        }
        let n = self.peek_at(1);
        ch == 47 && (n == 47 || n == 42)
    }

    fn lex_line_comment(&mut self, pos: Position) -> (t: Token)
        requires
            old(self).offset() < old(self).source().len(),
            old(self).source()[old(self).offset()] == 35 || old(self).source()[old(self).offset()]
                == 47,
        ensures
            final(self).source() == old(self).source(),
            t.pos == pos,
            lexed_as(t, line_comment_at(old(self).source(), old(self).offset())),
            final(self).offset() == line_comment_at(old(self).source(), old(self).offset()).2,
            final(self).offset() > old(self).offset(),
    {
        proof {
            use_type_invariant(&*self);
        }
        let start = self.pos;
        self.skip_class(ByteClass::NotNewline);
        proof {
            use_type_invariant(&*self);
            lemma_scan(self.input@, start as int, ByteClass::NotNewline);
            lemma_ascii_boundary(self.input@, start as int);
            lemma_ascii_boundary(self.input@, self.pos as int);
        }
        let text = self.text_from(start);
        Token::new(TokenKind::Comment, text, pos)
    }

    fn lex_block_comment(&mut self, pos: Position) -> (t: Token)
        requires
            old(self).offset() + 1 < old(self).source().len(),
            old(self).source()[old(self).offset()] == 47,
            old(self).source()[old(self).offset() + 1] == 42,
        ensures
            final(self).source() == old(self).source(),
            t.pos == pos,
            lexed_as(t, block_comment_at(old(self).source(), old(self).offset())),
            final(self).offset() == block_comment_at(old(self).source(), old(self).offset()).2,
            final(self).offset() > old(self).offset(),
    {
        proof {
            use_type_invariant(&*self);
        }
        let ghost s = self.source();
        let start = self.pos;
        self.advance();
        self.advance();
        loop
            invariant
                self.source() == s,
                s == old(self).source(),
                start == old(self).offset(),
                s.len() < usize::MAX,
                valid_utf8(s),
                s[start as int] == 47,
                start + 2 <= self.offset() <= s.len(),
                self.offset() == start + 2 || self.offset() <= s.len() - 1,
                find_block_close(s, start + 2) == find_block_close(s, self.offset()),
            decreases s.len() - self.offset(),
        {
            proof {
                use_type_invariant(&*self);
            }
            if self.pos + 1 >= self.input.len() {
                return Token::new(
                    TokenKind::Illegal,
                    crate::text::owned("unterminated block comment"),
                    pos,
                );
            }
            if self.input[self.pos] == 42 && self.input[self.pos + 1] == 47 {
                self.advance();
                self.advance();
                proof {
                    use_type_invariant(&*self);
                    lemma_ascii_boundary(s, start as int);
                    lemma_ascii_boundary(s, self.pos as int);
                }
                let text = self.text_from(start);
                return Token::new(TokenKind::Comment, text, pos);
            }
            self.advance();
        }
    }

    fn lex_triple_string(&mut self, pos: Position) -> (t: Token)
        requires
            old(self).offset() + 2 < old(self).source().len(),
            old(self).source()[old(self).offset()] == 34,
            old(self).source()[old(self).offset() + 1] == 34,
            old(self).source()[old(self).offset() + 2] == 34,
        ensures
            final(self).source() == old(self).source(),
            t.pos == pos,
            lexed_as(t, triple_string_at(old(self).source(), old(self).offset())),
            final(self).offset() == triple_string_at(old(self).source(), old(self).offset()).2,
            final(self).offset() > old(self).offset(),
    {
        proof {
            use_type_invariant(&*self);
        }
        let ghost s = self.source();
        let start = self.pos;
        self.advance();
        self.advance();
        self.advance();
        let body = self.pos;
        loop
            invariant
                self.source() == s,
                s == old(self).source(),
                start == old(self).offset(),
                s.len() < usize::MAX,
                valid_utf8(s),
                body == start + 3,
                s[start + 2] == 34,
                body <= self.offset() <= s.len(),
                self.offset() == body || self.offset() <= s.len() - 2,
                find_triple_close(s, body as int) == find_triple_close(s, self.offset()),
            decreases s.len() - self.offset(),
        {
            proof {
                use_type_invariant(&*self);
            }
            if self.input.len() - self.pos <= 2 {
                return Token::new(
                    TokenKind::Illegal,
                    crate::text::owned("unterminated triple-quoted string"),
                    pos,
                );
            }
            if self.input[self.pos] == 34 && self.input[self.pos + 1] == 34 && self.input[self.pos
                + 2] == 34 {
                proof {
                    lemma_ascii_boundary(s, body as int);
                    lemma_ascii_boundary(s, self.pos as int);
                }
                let raw = self.text_from(body);
                self.advance();
                self.advance();
                self.advance();
                let value = dedent_text(raw.as_str());
                return Token::new(TokenKind::String, value, pos);
            }
            self.advance();
        }
    }

    fn lex_bytes(&mut self, pos: Position) -> (t: Token)
        requires
            old(self).offset() + 1 < old(self).source().len(),
            old(self).source()[old(self).offset()] == 98,
            old(self).source()[old(self).offset() + 1] == 34,
        ensures
            final(self).source() == old(self).source(),
            t.pos == pos,
            lexed_as(t, bytes_at(old(self).source(), old(self).offset())),
            final(self).offset() == bytes_at(old(self).source(), old(self).offset()).2,
            final(self).offset() > old(self).offset(),
    {
        proof {
            use_type_invariant(&*self);
        }
        let ghost s = self.source();
        let start = self.pos;
        self.advance();
        self.advance();
        let body = self.pos;
        while self.pos < self.input.len() && self.input[self.pos] != 34 && self.input[self.pos]
            != 10
            invariant
                self.source() == s,
                body == start + 2,
                body <= self.offset() <= s.len(),
                bytes_body_end(s, body as int) == bytes_body_end(s, self.offset()),
            decreases s.len() - self.offset(),
        {
            proof {
                use_type_invariant(&*self);
            }
            self.advance();
        }
        proof {
            use_type_invariant(&*self);
        }
        if self.pos < self.input.len() && self.input[self.pos] == 34 {
            proof {
                lemma_ascii_boundary(s, body as int);
                lemma_ascii_boundary(s, self.pos as int);
            }
            let text = self.text_from(body);
            let raw = copy_range(self.input, body, self.pos);
            self.advance();
            if !is_valid_base64(raw.as_slice()) {
                return Token::new(
                    TokenKind::Illegal,
                    crate::text::owned("invalid base64 in bytes literal"),
                    pos,
                );
            }
            return Token::new(TokenKind::Bytes, text, pos);
        }
        Token::new(TokenKind::Illegal, crate::text::owned("unterminated bytes literal"), pos)
    }

    fn lex_directive(&mut self, pos: Position) -> (t: Token)
        requires
            old(self).offset() < old(self).source().len(),
            old(self).source()[old(self).offset()] == 64,
        ensures
            final(self).source() == old(self).source(),
            t.pos == pos,
            lexed_as(t, directive_at(old(self).source(), old(self).offset())),
            final(self).offset() == directive_at(old(self).source(), old(self).offset()).2,
            final(self).offset() > old(self).offset(),
    {
        proof {
            use_type_invariant(&*self);
        }
        let ghost s = self.source();
        let start = self.pos;
        self.advance();
        let name_start = self.pos;
        self.skip_class(ByteClass::IdentPart);
        proof {
            use_type_invariant(&*self);
            lemma_scan(s, name_start as int, ByteClass::IdentPart);
            lemma_ascii_boundary(s, name_start as int);
            lemma_ascii_boundary(s, self.pos as int);
        }
        let name = self.text_from(name_start);
        if str_is(&name, "type") {
            return Token::new(TokenKind::AtType, crate::text::owned("@type"), pos);
        }
        if str_is(&name, "dataset") {
            return Token::new(TokenKind::AtDataset, crate::text::owned("@dataset"), pos);
        }
        if str_is(&name, "proto") {
            return Token::new(TokenKind::AtProto, crate::text::owned("@proto"), pos);
        }
        let mut v = crate::text::owned("@");
        push_str(&mut v, name.as_str());
        Token::new(TokenKind::Illegal, v, pos)
    }

    fn lex_ident(&mut self, pos: Position) -> (t: Token)
        requires
            old(self).offset() < old(self).source().len(),
            is_ident_start(old(self).source()[old(self).offset()]),
        ensures
            final(self).source() == old(self).source(),
            t.pos == pos,
            lexed_as(t, ident_at(old(self).source(), old(self).offset())),
            final(self).offset() == ident_at(old(self).source(), old(self).offset()).2,
            final(self).offset() > old(self).offset(),
    {
        proof {
            use_type_invariant(&*self);
        }
        let ghost s = self.source();
        let start = self.pos;
        self.skip_class(ByteClass::IdentPart);
        proof {
            use_type_invariant(&*self);
            lemma_scan(s, start as int, ByteClass::IdentPart);
            lemma_ascii_boundary(s, start as int);
            lemma_ascii_boundary(s, self.pos as int);
        }
        let v = self.text_from(start);
        if str_is(&v, "true") || str_is(&v, "false") {
            Token::new(TokenKind::Bool, v, pos)
        } else if str_is(&v, "null") {
            Token::new(TokenKind::Null, v, pos)
        } else {
            Token::new(TokenKind::Ident, v, pos)
        }
    }

    fn lex_float(&mut self, pos: Position, start: usize) -> (t: Token)
        requires
            start < old(self).offset() < old(self).source().len(),
            old(self).source()[start as int] < 0x80,
            old(self).source()[old(self).offset()] == 46 || old(self).source()[old(self).offset()]
                == 101 || old(self).source()[old(self).offset()] == 69,
        ensures
            final(self).source() == old(self).source(),
            t.pos == pos,
            lexed_as(t, float_at(old(self).source(), start as int, old(self).offset())),
            final(self).offset() == float_at(old(self).source(), start as int, old(self).offset()).2,
            final(self).offset() > old(self).offset(),
    {
        proof {
            use_type_invariant(&*self);
        }
        let ghost s = self.source();
        let ghost d = self.offset();
        if self.peek() == 46 {
            self.advance();
            self.skip_class(ByteClass::Digit);
            proof {
                use_type_invariant(&*self);
                lemma_scan(s, d + 1, ByteClass::Digit);
            }
        }
        let ghost p = self.offset();
        assert(p == if s[d] == 46 {
            scan(s, d + 1, ByteClass::Digit)
        } else {
            d
        });
        if self.pos < self.input.len() && (self.peek() == 101 || self.peek() == 69) {
            self.advance();
            proof {
                use_type_invariant(&*self);
            }
            if self.pos < self.input.len() && (self.peek() == 43 || self.peek() == 45) {
                self.advance();
            }
            let ghost q = self.offset();
            self.skip_class(ByteClass::Digit);
            proof {
                use_type_invariant(&*self);
                lemma_scan(s, q, ByteClass::Digit);
            }
        }
        proof {
            use_type_invariant(&*self);
            lemma_ascii_boundary(s, start as int);
            lemma_ascii_boundary(s, self.pos as int);
        }
        let text = self.text_from(start);
        Token::new(TokenKind::Float, text, pos)
    }

    fn lex_timestamp(&mut self, pos: Position, start: usize) -> (t: Token)
        requires
            start < old(self).offset() <= old(self).source().len(),
            old(self).source()[start as int] < 0x80,
        ensures
            final(self).source() == old(self).source(),
            t.pos == pos,
            lexed_as(t, timestamp_at(old(self).source(), start as int, old(self).offset())),
            final(self).offset() == timestamp_at(
                old(self).source(),
                start as int,
                old(self).offset(),
            ).2,
            final(self).offset() >= old(self).offset(),
    {
        proof {
            use_type_invariant(&*self);
        }
        let ghost s = self.source();
        let ghost d = self.offset();
        while self.pos < self.input.len() && !self.at_timestamp_stop()
            invariant
                self.source() == s,
                d <= self.offset() <= s.len(),
                timestamp_end(s, d) == timestamp_end(s, self.offset()),
            decreases s.len() - self.offset(),
        {
            proof {
                use_type_invariant(&*self);
            }
            self.advance();
        }
        proof {
            use_type_invariant(&*self);
            lemma_ascii_boundary(s, start as int);
            lemma_ascii_boundary(s, self.pos as int);
        }
        let text = self.text_from(start);
        let raw = copy_range(self.input, start, self.pos);
        if !is_valid_rfc3339(raw.as_slice()) {
            let mut m = crate::text::owned("invalid timestamp: ");
            push_str(&mut m, text.as_str());
            return Token::new(TokenKind::Illegal, m, pos);
        }
        Token::new(TokenKind::Timestamp, text, pos)
    }

    fn lex_duration(&mut self, pos: Position, start: usize) -> (t: Token)
        requires
            start < old(self).offset() < old(self).source().len(),
            old(self).source()[start as int] < 0x80,
            is_duration_unit(old(self).source()[old(self).offset()]),
        ensures
            final(self).source() == old(self).source(),
            t.pos == pos,
            lexed_as(t, duration_at(old(self).source(), start as int, old(self).offset())),
            final(self).offset() == duration_at(
                old(self).source(),
                start as int,
                old(self).offset(),
            ).2,
            final(self).offset() > old(self).offset(),
    {
        proof {
            use_type_invariant(&*self);
        }
        let ghost s = self.source();
        let ghost d = self.offset();
        self.skip_class(ByteClass::DigitOrLower);
        proof {
            use_type_invariant(&*self);
            lemma_scan(s, d, ByteClass::DigitOrLower);
            lemma_ascii_boundary(s, start as int);
            lemma_ascii_boundary(s, self.pos as int);
        }
        let text = self.text_from(start);
        let raw = copy_range(self.input, start, self.pos);
        if !is_valid_go_duration(raw.as_slice()) {
            let mut m = crate::text::owned("invalid duration: ");
            push_str(&mut m, text.as_str());
            return Token::new(TokenKind::Illegal, m, pos);
        }
        Token::new(TokenKind::Duration, text, pos)
    }

    fn lex_number(&mut self, pos: Position) -> (t: Token)
        requires
            old(self).offset() < old(self).source().len(),
            old(self).source()[old(self).offset()] == 45 || is_digit(
                old(self).source()[old(self).offset()],
            ),
        ensures
            final(self).source() == old(self).source(),
            t.pos == pos,
            lexed_as(t, number_at(old(self).source(), old(self).offset())),
            final(self).offset() == number_at(old(self).source(), old(self).offset()).2,
            final(self).offset() > old(self).offset(),
    {
        proof {
            use_type_invariant(&*self);
        }
        let ghost s = self.source();
        let start = self.pos;
        let mut neg = false;
        if self.peek() == 45 {
            neg = true;
            self.advance();
            proof {
                use_type_invariant(&*self);
            }
            if self.pos >= self.input.len() || !digit(self.peek()) {
                return Token::new(TokenKind::Illegal, crate::text::owned("-"), pos);
            }
        }
        let digit_start = self.pos;
        self.skip_class(ByteClass::Digit);
        proof {
            use_type_invariant(&*self);
            lemma_scan(s, digit_start as int, ByteClass::Digit);
        }
        let digit_count = self.pos - digit_start;
        if !neg && digit_count == 4 && self.pos < self.input.len() && self.peek() == 45 {
            return self.lex_timestamp(pos, start);
        }
        if self.pos < self.input.len() {
            let c = self.peek();
            if c == 46 || c == 101 || c == 69 {
                return self.lex_float(pos, start);
            }
        }
        if self.pos < self.input.len() && duration_unit(self.peek()) {
            return self.lex_duration(pos, start);
        }
        proof {
            lemma_ascii_boundary(s, start as int);
            lemma_ascii_boundary(s, self.pos as int);
        }
        let text = self.text_from(start);
        Token::new(TokenKind::Int, text, pos)
    }

    /// Reads exactly two hex digits as a byte; on failure nothing is read.
    fn read_hex_byte(&mut self) -> (r: Option<u8>)
        ensures
            final(self).source() == old(self).source(),
            ({
                let s = old(self).source();
                let p = old(self).offset();
                if p + 1 < s.len() && is_hex(s[p]) && is_hex(s[p + 1]) {
                    r == Some((hex_of(s[p]) * 16 + hex_of(s[p + 1])) as u8) && final(self).offset()
                        == p + 2
                } else {
                    r is None && final(self).offset() == p
                }
            }),
    {
        proof {
            use_type_invariant(&*self);
        }
        if self.input.len() - self.pos < 2 {
            return None;
        }
        let hi = match hex_val(self.input[self.pos]) {
            Some(v) => v,
            None => {
                return None;
            },
        };
        let lo = match hex_val(self.input[self.pos + 1]) {
            Some(v) => v,
            None => {
                return None;
            },
        };
        self.advance();
        self.advance();
        Some((hi * 16 + lo) as u8)
    }

    /// Reads the two octal digits after a leading `0`-`3`; on failure nothing
    /// is read.
    fn read_oct_rest(&mut self, first: u8) -> (r: Option<u8>)
        requires
            48 <= first <= 51,
        ensures
            final(self).source() == old(self).source(),
            ({
                let s = old(self).source();
                let p = old(self).offset();
                if p + 1 < s.len() && is_oct(s[p]) && is_oct(s[p + 1]) {
                    r == Some(((first - 48) * 64 + (s[p] - 48) * 8 + (s[p + 1] - 48)) as u8)
                        && final(self).offset() == p + 2
                } else {
                    r is None && final(self).offset() == p
                }
            }),
    {
        proof {
            use_type_invariant(&*self);
        }
        if self.input.len() - self.pos < 2 {
            return None;
        }
        let d1 = match oct_val(self.input[self.pos]) {
            Some(v) => v,
            None => {
                return None;
            },
        };
        let d2 = match oct_val(self.input[self.pos + 1]) {
            Some(v) => v,
            None => {
                return None;
            },
        };
        self.advance();
        self.advance();
        Some(((first - 48) as u32 * 64 + d1 * 8 + d2) as u8)
    }

    /// Reads exactly `n` hex digits as a code point. Fails without reading
    /// when fewer than `n` bytes remain, and stops at the first byte that is
    /// not a hex digit.
    fn read_hex_rune(&mut self, n: usize) -> (r: Option<u32>)
        requires
            1 <= n <= 8,
        ensures
            final(self).source() == old(self).source(),
            final(self).offset() >= old(self).offset(),
            ({
                let s = old(self).source();
                let p = old(self).offset();
                &&& r is Some <==> hex_digits_at(s, p, n as int)
                &&& r matches Some(v) ==> v == hex_value(s, p, n as int)
                &&& final(self).offset() == if r is Some {
                    p + n
                } else {
                    rune_escape_fail_end(s, p, n as int)
                }
            }),
    {
        proof {
            use_type_invariant(&*self);
        }
        let ghost s = self.source();
        let ghost p = self.offset();
        if n > self.input.len() - self.pos {
            return None;
        }
        let mut r: u32 = 0;
        let mut k: usize = 0;
        while k < n
            invariant
                self.source() == s,
                s == old(self).source(),
                p == old(self).offset(),
                1 <= n <= 8,
                k <= n,
                p + n <= s.len(),
                self.offset() == p + k,
                forall|x: int| p <= x < p + k ==> is_hex(#[trigger] s[x]),
                r == hex_value(s, p, k as int),
                r < pow16(k as nat),
                hex_run(s, p, n as int) == k + hex_run(s, p + k, n - k),
            decreases n - k,
        {
            proof {
                use_type_invariant(&*self);
            }
            let h = match hex_val(self.input[self.pos]) {
                Some(v) => v,
                None => {
                    assert(!hex_digits_at(s, p, n as int));
                    return None;
                },
            };
            proof {
                lemma_pow16_small(k as nat);
                assert(pow16((k + 1) as nat) == 16 * pow16(k as nat));
            }
            r = r * 16 + h;
            self.advance();
            k = k + 1;
        }
        proof {
            assert(hex_digits_at(s, p, n as int));
        }
        Some(r)
    }

    /// Decodes the escape whose backslash is just behind the current offset,
    /// appending its bytes; the message of a malformed escape otherwise.
    fn read_escape(&mut self, buf: &mut Vec<u8>) -> (err: Option<String>)
        requires
            0 < old(self).offset(),
            old(self).source()[old(self).offset() - 1] == 92,
        ensures
            final(self).source() == old(self).source(),
            final(self).offset() >= old(self).offset(),
            ({
                let s = old(self).source();
                let j = old(self).offset() - 1;
                match err {
                    None => string_body(s, j, old(buf)@) == string_body(
                        s,
                        final(self).offset(),
                        final(buf)@,
                    ),
                    Some(m) => string_body(s, j, old(buf)@) == Err::<(Seq<u8>, int), (Seq<char>, int)>(
                        (m@, final(self).offset()),
                    ),
                }
            }),
    {
        proof {
            use_type_invariant(&*self);
        }
        let ghost s = self.source();
        if self.pos >= self.input.len() {
            return Some(crate::text::owned("unterminated escape sequence"));
        }
        let esc = self.input[self.pos];
        self.advance();
        match escape_byte(esc) {
            Some(b) => {
                buf.push(b);
                return None;
            },
            None => {},
        }
        if esc == 120 {
            match self.read_hex_byte() {
                Some(b) => {
                    buf.push(b);
                    None
                },
                None => Some(crate::text::owned("invalid \\x escape: expected 2 hex digits")),
            }
        } else if esc >= 48 && esc <= 51 {
            match self.read_oct_rest(esc) {
                Some(b) => {
                    buf.push(b);
                    None
                },
                None => Some(crate::text::owned("invalid octal escape: expected 3 octal digits")),
            }
        } else if esc == 117 || esc == 85 {
            let n: usize = if esc == 117 {
                4
            } else {
                8
            };
            let ghost p = self.offset();
            let r = self.read_hex_rune(n);
            let ok = match r {
                Some(v) => valid_rune(v),
                None => false,
            };
            if !ok {
                proof {
                    if r is Some {
                        lemma_hex_run_full(s, p, n as int);
                    }
                }
                if esc == 117 {
                    return Some(
                        crate::text::owned(
                            "invalid \\u escape: expected 4 hex digits forming a valid codepoint",
                        ),
                    );
                } else {
                    return Some(
                        crate::text::owned(
                            "invalid \\U escape: expected 8 hex digits forming a valid codepoint",
                        ),
                    );
                }
            }
            match r {
                Some(v) => encode_rune(v, buf),
                None => {},
            }
            None
        } else {
            let mut m = crate::text::owned("unknown escape sequence \\");
            let c = esc as char;
            assert(c == esc as char);
            push_char(&mut m, c);
            assert(m@ == "unknown escape sequence \\"@ + seq![esc as char]);
            Some(m)
        }
    }

    fn lex_string(&mut self, pos: Position) -> (t: Token)
        requires
            old(self).offset() < old(self).source().len(),
            old(self).source()[old(self).offset()] == 34,
        ensures
            final(self).source() == old(self).source(),
            t.pos == pos,
            lexed_as(t, string_at(old(self).source(), old(self).offset())),
            final(self).offset() == string_at(old(self).source(), old(self).offset()).2,
            final(self).offset() > old(self).offset(),
    {
        proof {
            use_type_invariant(&*self);
        }
        let ghost s = self.source();
        let start = self.pos;
        self.advance();
        let mut buf: Vec<u8> = Vec::new();
        loop
            invariant
                self.source() == s,
                s == old(self).source(),
                start == old(self).offset(),
                start < self.offset() <= s.len(),
                string_body(s, start + 1, seq![]) == string_body(s, self.offset(), buf@),
            decreases s.len() - self.offset(),
        {
            proof {
                use_type_invariant(&*self);
            }
            if self.pos >= self.input.len() {
                return Token::new(TokenKind::Illegal, crate::text::owned("unterminated string"), pos);
            }
            let ch = self.input[self.pos];
            self.advance();
            if ch == 34 {
                return match string_from_utf8(buf) {
                    Ok(v) => Token::new(TokenKind::String, v, pos),
                    Err(_) => Token::new(
                        TokenKind::Illegal,
                        crate::text::owned("string contains invalid UTF-8"),
                        pos,
                    ),
                };
            }
            if ch != 92 {
                buf.push(ch);
            } else {
                match self.read_escape(&mut buf) {
                    Some(m) => {
                        return Token::new(TokenKind::Illegal, m, pos);
                    },
                    None => {},
                }
            }
            proof {
                use_type_invariant(&*self);
            }
        }
    }

    /// The next token, skipping spaces, tabs and carriage returns. At the
    /// end of the input it is an end-of-input token, again on every call.
    pub fn next_token(&mut self) -> (t: Token)
        ensures
            final(self).source() == old(self).source(),
            ({
                let s = old(self).source();
                let st = scan(s, old(self).offset(), ByteClass::Space);
                let r = token_at(s, st);
                &&& lexed_as(t, r)
                &&& t.pos == position_at(s, st)
                &&& final(self).offset() == r.2
            }),
            t.kind != TokenKind::Eof ==> final(self).offset() > old(self).offset(),
            t.kind == TokenKind::Eof ==> final(self).offset() == old(self).source().len(),
            final(self).offset() <= final(self).source().len(),
    {
        proof {
            use_type_invariant(&*self);
            lemma_scan(self.input@, self.pos as int, ByteClass::Space);
        }
        self.skip_spaces();
        proof {
            use_type_invariant(&*self);
        }
        let pos = self.current_pos();
        if self.pos >= self.input.len() {
            return Token::new(TokenKind::Eof, String::new(), pos);
        }
        let ghost s = self.source();
        let ghost st = self.offset();
        let ch = self.input[self.pos];
        let c1 = self.peek_at(1);
        if ch == 10 {
            self.advance();
            return Token::new(TokenKind::Newline, String::new(), pos);
        }
        if ch == 35 || (ch == 47 && c1 == 47) {
            let t = self.lex_line_comment(pos);
            proof {
                use_type_invariant(&*self);
            }
            return t;
        }
        if ch == 47 && c1 == 42 {
            let t = self.lex_block_comment(pos);
            proof {
                use_type_invariant(&*self);
            }
            return t;
        }
        if ch == 34 {
            if c1 == 34 && self.peek_at(2) == 34 {
                let t = self.lex_triple_string(pos);
            proof {
                use_type_invariant(&*self);
            }
            return t;
            }
            let t = self.lex_string(pos);
            proof {
                use_type_invariant(&*self);
            }
            return t;
        }
        if ch == 98 && c1 == 34 {
            let t = self.lex_bytes(pos);
            proof {
                use_type_invariant(&*self);
            }
            return t;
        }
        let punct = if ch == 123 {
            Some(TokenKind::LBrace)
        } else if ch == 125 {
            Some(TokenKind::RBrace)
        } else if ch == 91 {
            Some(TokenKind::LBracket)
        } else if ch == 93 {
            Some(TokenKind::RBracket)
        } else if ch == 40 {
            Some(TokenKind::LParen)
        } else if ch == 41 {
            Some(TokenKind::RParen)
        } else if ch == 61 {
            Some(TokenKind::Equals)
        } else if ch == 58 {
            Some(TokenKind::Colon)
        } else if ch == 44 {
            Some(TokenKind::Comma)
        } else {
            None
        };
        match punct {
            Some(k) => {
                self.advance();
                let mut v = String::new();
                push_char(&mut v, ch as char);
                return Token::new(k, v, pos);
            },
            None => {},
        }
        if ch == 64 {
            let t = self.lex_directive(pos);
            proof {
                use_type_invariant(&*self);
            }
            return t;
        }
        if ch == 45 || digit(ch) {
            let t = self.lex_number(pos);
            proof {
                use_type_invariant(&*self);
            }
            return t;
        }
        if ident_start(ch) {
            let t = self.lex_ident(pos);
            proof {
                use_type_invariant(&*self);
            }
            return t;
        }
        self.advance();
        let mut v = String::new();
        push_char(&mut v, ch as char);
        Token::new(TokenKind::Illegal, v, pos)
    }

    /// Reads the rest of the input: every token up to and including the
    /// end-of-input token.
    pub fn collect_tokens(self) -> (v: Vec<Token>)
        ensures
            lexes(self.source(), self.offset(), v@),
    {
        let ghost s = self.source();
        let ghost i = self.offset();
        let mut lex = self;
        let mut out: Vec<Token> = Vec::new();
        loop
            invariant
                lex.source() == s,
                s == self.source(),
                i == self.offset(),
                lexes_to(s, i, out@) == Some(lex.offset()),
            decreases s.len() - lex.offset() + 1,
        {
            proof {
                use_type_invariant(&lex);
            }
            let ghost j = lex.offset();
            let t = lex.next_token();
            let is_eof = t.kind == TokenKind::Eof;
            proof {
                lemma_lexes_to_push(s, i, out@, t, j);
                use_type_invariant(&lex);
            }
            out.push(t);
            if is_eof {
                return out;
            }
        }
    }

    /// The bytes being tokenized.
    pub fn input_bytes(&self) -> (b: &'a [u8])
        ensures
            b@ == self.source(),
            b@.len() < usize::MAX,
    {
        proof {
            use_type_invariant(self);
        }
        self.input
    }

    /// Moves on to offset `target` without producing tokens.
    pub fn skip_to(&mut self, target: usize)
        requires
            old(self).offset() <= target <= old(self).source().len(),
        ensures
            final(self).source() == old(self).source(),
            final(self).offset() == target,
    {
        while self.pos < target
            invariant
                self.offset() <= target <= self.source().len(),
                self.source() == old(self).source(),
            decreases target - self.offset(),
        {
            self.advance();
        }
    }

    /// The text between offset `a` and the current offset.
    fn text_from(&self, a: usize) -> (r: String)
        requires
            a <= self.offset(),
            is_char_boundary(self.source(), a as int),
            is_char_boundary(self.source(), self.offset()),
        ensures
            r@ == text_of(self.source(), a as int, self.offset()),
    {
        proof {
            use_type_invariant(self);
        }
        utf8_slice(self.input, a, self.pos)
    }
}


// ---------------------------------------------------------------- laws
/// A run of digits `s[i..j]` that no digit follows is exactly what the
/// digit scan from `i` covers.
proof fn lemma_scan_digits_to(s: Seq<u8>, i: int, j: int)
    requires
        0 <= i <= j <= s.len(),
        forall|k: int| i <= k < j ==> is_digit(#[trigger] s[k]),
        j == s.len() || !is_digit(s[j]),
    ensures
        scan(s, i, ByteClass::Digit) == j,
    decreases j - i,
{
    if i < j {
        lemma_scan_digits_to(s, i + 1, j);
    }
}

/// Whether every byte of `d` is a decimal digit.
pub open spec fn digit_run(d: Seq<u8>) -> bool {
    forall|k: int| 0 <= k < d.len() ==> is_digit(#[trigger] d[k])
}

/// A float literal with an exponent, `digits ('.' digits)? [eE] [+-]? digits`,
/// followed by anything but a digit, lexes as one `Float` token whose text is
/// the whole literal and which ends where the literal ends. `frac` empty
/// stands for no fraction; `sign` is empty or one of `+`, `-`.
pub proof fn lemma_exponent_float_lexes(
    whole: Seq<u8>,
    frac: Seq<u8>,
    marker: u8,
    sign: Seq<u8>,
    exp: Seq<u8>,
    rest: Seq<u8>,
)
    requires
        whole.len() > 0,
        digit_run(whole),
        digit_run(frac),
        marker == 101 || marker == 69,
        sign.len() == 0 || sign == seq![43u8] || sign == seq![45u8],
        exp.len() > 0,
        digit_run(exp),
        rest.len() == 0 || !is_digit(rest[0]),
    ensures
        ({
            let lit = whole + (if frac.len() == 0 {
                Seq::<u8>::empty()
            } else {
                seq![46u8] + frac
            }) + seq![marker] + sign + exp;
            token_at(lit + rest, 0) == (TokenKind::Float, decode_utf8(lit), lit.len() as int)
        }),
{
    let f = if frac.len() == 0 {
        Seq::<u8>::empty()
    } else {
        seq![46u8] + frac
    };
    let lit = whole + f + seq![marker] + sign + exp;
    let s = lit + rest;
    let d = whole.len() as int;
    let p = d + f.len();
    let q = p + 1 + sign.len();
    let e = lit.len() as int;
    assert(forall|k: int| 0 <= k < d ==> s[k] == whole[k]);
    assert(s[d] == (if frac.len() == 0 { marker } else { 46u8 }));
    assert(s[p] == marker);
    assert(sign.len() == 1 ==> s[p + 1] == sign[0]);
    assert(forall|k: int| q <= k < e ==> s[k] == exp[k - q]);
    assert(e == s.len() || s[e] == rest[0]);
    assert(is_digit(s[0]));
    lemma_scan_digits_to(s, 0, d);
    if frac.len() > 0 {
        assert(forall|k: int| d + 1 <= k < p ==> s[k] == frac[k - d - 1]);
        assert(forall|k: int| d + 1 <= k < p ==> is_digit(#[trigger] s[k])) by {
            assert forall|k: int| d + 1 <= k < p implies is_digit(#[trigger] s[k]) by {
                assert(s[k] == frac[k - d - 1]);
            }
        }
        lemma_scan_digits_to(s, d + 1, p);
    }
    assert(forall|k: int| q <= k < e ==> is_digit(#[trigger] s[k])) by {
        assert forall|k: int| q <= k < e implies is_digit(#[trigger] s[k]) by {
            assert(s[k] == exp[k - q]);
        }
    }
    lemma_scan_digits_to(s, q, e);
    assert(s.subrange(0, e) =~= lit);
}

/// A float literal without an exponent, `digits '.' digits`, followed by
/// anything but a digit or an exponent marker, lexes as one `Float` token
/// whose text is the whole literal and which ends where the literal ends.
pub proof fn lemma_fraction_float_lexes(whole: Seq<u8>, frac: Seq<u8>, rest: Seq<u8>)
    requires
        whole.len() > 0,
        digit_run(whole),
        frac.len() > 0,
        digit_run(frac),
        rest.len() == 0 || !(is_digit(rest[0]) || rest[0] == 101 || rest[0] == 69),
    ensures
        ({
            let lit = whole + seq![46u8] + frac;
            token_at(lit + rest, 0) == (TokenKind::Float, decode_utf8(lit), lit.len() as int)
        }),
{
    let lit = whole + seq![46u8] + frac;
    let s = lit + rest;
    let d = whole.len() as int;
    let e = lit.len() as int;
    assert(forall|k: int| 0 <= k < d ==> s[k] == whole[k]);
    assert(s[d] == 46u8);
    assert(e == s.len() || s[e] == rest[0]);
    assert(is_digit(s[0]));
    lemma_scan_digits_to(s, 0, d);
    assert(forall|k: int| d + 1 <= k < e ==> is_digit(#[trigger] s[k])) by {
        assert forall|k: int| d + 1 <= k < e implies is_digit(#[trigger] s[k]) by {
            assert(s[k] == frac[k - d - 1]);
        }
    }
    lemma_scan_digits_to(s, d + 1, e);
    assert(s.subrange(0, e) =~= lit);
}

/// `encode_utf8` of a concatenation is the concatenation of the encodings.
pub proof fn lemma_encode_utf8_concat(a: Seq<char>, b: Seq<char>)
    ensures
        encode_utf8(a + b) == encode_utf8(a) + encode_utf8(b),
    decreases a.len(),
{
    if a.len() == 0 {
        assert(a + b =~= b);
    } else {
        assert((a + b).drop_first() =~= a.drop_first() + b);
        lemma_encode_utf8_concat(a.drop_first(), b);
        assert(encode_utf8(a + b) =~= encode_utf8(a) + encode_utf8(b));
    }
}

proof fn lemma_encode_utf8_single(c: char)
    ensures
        encode_utf8(seq![c]) == encode_scalar(c as u32),
{
    let t = seq![c].drop_first();
    assert(t.len() == 0);
    assert(encode_utf8(t) =~= Seq::<u8>::empty());
    assert(seq![c][0] == c);
    assert(encode_utf8(seq![c]) =~= encode_scalar(c as u32) + encode_utf8(t));
}

proof fn lemma_encode_utf8_two(p: Seq<char>)
    requires
        p.len() == 2,
    ensures
        encode_utf8(p) == encode_scalar(p[0] as u32) + encode_scalar(p[1] as u32),
{
    let t = p.drop_first();
    assert(t =~= seq![p[1]]);
    lemma_encode_utf8_single(p[1]);
    assert(encode_utf8(p) =~= encode_scalar(p[0] as u32) + encode_utf8(t));
}

proof fn lemma_ascii_scalar(x: u32)
    requires
        x < 0x80,
    ensures
        encode_scalar(x) == seq![x as u8],
{
    assert((x & 0x7F) as u8 == x as u8) by (bit_vector)
        requires
            x < 0x80,
    ;
}

/// No byte of a character's UTF-8 encoding is a quote or a backslash, unless
/// the character is one.
proof fn lemma_scalar_bytes_plain(c: char)
    requires
        c != '"',
        c != '\\',
    ensures
        forall|k: int|
            0 <= k < encode_scalar(c as u32).len() ==> #[trigger] encode_scalar(c as u32)[k] != 34
                && encode_scalar(c as u32)[k] != 92,
{
    let x = c as u32;
    if x < 0x80 {
        lemma_ascii_scalar(x);
        assert(x != 34 && x != 92);
        assert(x as u8 != 34u8 && x as u8 != 92u8) by (bit_vector)
            requires
                x < 0x80,
                x != 34,
                x != 92,
        ;
    } else {
        assert(leading_byte_width_2(x) >= 0x80 && leading_byte_width_3(x) >= 0x80
            && leading_byte_width_4(x) >= 0x80 && last_continuation_byte(x) >= 0x80
            && second_last_continuation_byte(x) >= 0x80 && third_last_continuation_byte(x) >= 0x80)
            by (bit_vector);
    }
}

/// Bytes holding neither a quote nor a backslash are copied through by the
/// string-body reader.
proof fn lemma_string_body_plain(s: Seq<u8>, j: int, acc: Seq<u8>, b: Seq<u8>)
    requires
        0 <= j,
        j + b.len() <= s.len(),
        s.subrange(j, j + b.len()) == b,
        forall|k: int| 0 <= k < b.len() ==> #[trigger] b[k] != 34 && b[k] != 92,
    ensures
        string_body(s, j, acc) == string_body(s, j + b.len(), acc + b),
    decreases b.len(),
{
    if b.len() == 0 {
        assert(acc + b =~= acc);
    } else {
        assert(s[j] == b[0]);
        assert(b[0] != 34 && b[0] != 92);
        let b1 = b.drop_first();
        assert(s.subrange(j + 1, j + 1 + b1.len()) =~= b1);
        lemma_string_body_plain(s, j + 1, acc.push(b[0]), b1);
        assert(acc.push(b[0]) + b1 =~= acc + b);
    }
}

/// How the string quoters write one character: as itself when it is
/// neither a quote nor a backslash, or as a backslash and an ASCII letter
/// whose one-letter escape stands for the (ASCII) character.
pub open spec fn escapes_to(c: char, piece: Seq<char>) -> bool {
    ||| piece == seq![c] && c != '"' && c != '\\'
    ||| piece.len() == 2 && piece[0] == '\\' && (piece[1] as u32) < 0x80 && (c as u32) < 0x80
        && simple_escape((piece[1] as u32) as u8) == Some((c as u32) as u8)
}

/// The characters of `s`, each written as `esc` writes it.
pub open spec fn escaped_by(esc: spec_fn(char) -> Seq<char>, s: Seq<char>) -> Seq<char>
    decreases s.len(),
{
    if s.len() == 0 {
        seq![]
    } else {
        esc(s[0]) + escaped_by(esc, s.drop_first())
    }
}

pub proof fn lemma_escaped_by_push(esc: spec_fn(char) -> Seq<char>, s: Seq<char>, c: char)
    ensures
        escaped_by(esc, s.push(c)) == escaped_by(esc, s) + esc(c),
    decreases s.len(),
{
    if s.len() == 0 {
        let t = s.push(c);
        assert(t.drop_first() =~= Seq::<char>::empty());
        assert(escaped_by(esc, t.drop_first()) =~= Seq::<char>::empty());
        assert(t[0] == c);
        assert(escaped_by(esc, t) == esc(t[0]) + escaped_by(esc, t.drop_first()));
        assert(escaped_by(esc, t) =~= escaped_by(esc, s) + esc(c));
    } else {
        assert(s.push(c)[0] == s[0]);
        assert(s.push(c).drop_first() =~= s.drop_first().push(c));
        lemma_escaped_by_push(esc, s.drop_first(), c);
        let t = s.push(c);
        assert(t.len() > 0);
        assert(escaped_by(esc, t) == esc(t[0]) + escaped_by(esc, t.drop_first()));
        assert(escaped_by(esc, s) == esc(s[0]) + escaped_by(esc, s.drop_first()));
        assert(escaped_by(esc, t) =~= escaped_by(esc, s) + esc(c));
    }
}

/// The reader takes one written character back to that character's bytes.
proof fn lemma_string_body_piece(s: Seq<u8>, j: int, acc: Seq<u8>, c: char, piece: Seq<char>)
    requires
        escapes_to(c, piece),
        0 <= j,
        j + encode_utf8(piece).len() <= s.len(),
        s.subrange(j, j + encode_utf8(piece).len()) == encode_utf8(piece),
    ensures
        string_body(s, j, acc) == string_body(
            s,
            j + encode_utf8(piece).len(),
            acc + encode_utf8(seq![c]),
        ),
{
    lemma_encode_utf8_single(c);
    if piece == seq![c] && c != '"' && c != '\\' {
        lemma_scalar_bytes_plain(c);
        lemma_string_body_plain(s, j, acc, encode_scalar(c as u32));
    } else {
        let e = piece[1] as u32;
        lemma_encode_utf8_two(piece);
        lemma_ascii_scalar(92);
        lemma_ascii_scalar(e);
        lemma_ascii_scalar(c as u32);
        assert(('\\' as u32) == 92);
        assert(encode_utf8(piece) =~= seq![92u8, e as u8]);
        assert(s[j] == 92u8);
        assert(s[j + 1] == e as u8);
        assert(acc.push((c as u32) as u8) =~= acc + encode_utf8(seq![c]));
    }
}

/// A string body written with `esc`, then a closing quote, reads back as
/// the bytes of the original characters.
pub proof fn lemma_escaped_string_body(
    esc: spec_fn(char) -> Seq<char>,
    s: Seq<char>,
    b: Seq<u8>,
    j: int,
    acc: Seq<u8>,
)
    requires
        forall|c: char| escapes_to(c, #[trigger] esc(c)),
        0 <= j,
        j + encode_utf8(escaped_by(esc, s)).len() < b.len(),
        b.subrange(j, j + encode_utf8(escaped_by(esc, s)).len()) == encode_utf8(escaped_by(esc, s)),
        b[j + encode_utf8(escaped_by(esc, s)).len()] == 34,
    ensures
        string_body(b, j, acc) == Ok::<(Seq<u8>, int), (Seq<char>, int)>(
            (acc + encode_utf8(s), j + encode_utf8(escaped_by(esc, s)).len() + 1),
        ),
    decreases s.len(),
{
    if s.len() == 0 {
        assert(acc + encode_utf8(s) =~= acc);
    } else {
        let c = s[0];
        let p = esc(c);
        let t = escaped_by(esc, s.drop_first());
        assert(escaped_by(esc, s) == p + t);
        lemma_encode_utf8_concat(p, t);
        let lp = encode_utf8(p).len() as int;
        let lt = encode_utf8(t).len() as int;
        assert(b.subrange(j, j + lp) =~= encode_utf8(p)) by {
            assert(b.subrange(j, j + lp) =~= b.subrange(j, j + lp + lt).subrange(0, lp));
        }
        assert(b.subrange(j + lp, j + lp + lt) =~= encode_utf8(t)) by {
            assert(b.subrange(j + lp, j + lp + lt) =~= b.subrange(j, j + lp + lt).subrange(
                lp,
                lp + lt,
            ));
        }
        assert(escapes_to(c, p));
        lemma_string_body_piece(b, j, acc, c, p);
        lemma_escaped_string_body(esc, s.drop_first(), b, j + lp, acc + encode_utf8(seq![c]));
        lemma_encode_utf8_concat(seq![c], s.drop_first());
        assert(seq![c] + s.drop_first() =~= s);
        assert(acc + encode_utf8(seq![c]) + encode_utf8(s.drop_first()) =~= acc + encode_utf8(s));
    }
}

/// A quoted string written with `esc`, at the start of any input, lexes
/// back as a `String` token holding exactly the original characters, and
/// the lexer stops right after the closing quote.
pub proof fn lemma_escaped_string_lexes(esc: spec_fn(char) -> Seq<char>, s: Seq<char>, rest: Seq<u8>)
    requires
        forall|c: char| escapes_to(c, #[trigger] esc(c)),
    ensures
        ({
            let q = encode_utf8(seq!['"'] + escaped_by(esc, s) + seq!['"']);
            &&& string_at(q + rest, 0) == (TokenKind::String, s, q.len() as int)
            &&& (s.len() > 0 || rest.len() == 0 || rest[0] != 34) ==> token_at(q + rest, 0)
                == string_at(q + rest, 0)
        }),
{
    let e = escaped_by(esc, s);
    let q = encode_utf8(seq!['"'] + e + seq!['"']);
    lemma_encode_utf8_concat(seq!['"'] + e, seq!['"']);
    lemma_encode_utf8_concat(seq!['"'], e);
    lemma_ascii_scalar(34);
    assert(('"' as u32) == 34);
    lemma_encode_utf8_single('"');
    assert(encode_utf8(seq!['"']) =~= seq![34u8]);
    let le = encode_utf8(e).len() as int;
    assert(q =~= seq![34u8] + encode_utf8(e) + seq![34u8]);
    let b = q + rest;
    assert(b.subrange(1, 1 + le) =~= encode_utf8(e));
    assert(b[1 + le] == 34);
    lemma_escaped_string_body(esc, s, b, 1, seq![]);
    assert(seq![] + encode_utf8(s) =~= encode_utf8(s));
    encode_utf8_valid_utf8(s);
    encode_utf8_decode_utf8(s);
    if s.len() > 0 {
        let p = esc(s[0]);
        assert(e == p + escaped_by(esc, s.drop_first()));
        lemma_encode_utf8_concat(p, escaped_by(esc, s.drop_first()));
        assert(escapes_to(s[0], p));
        assert(p.drop_first().len() < p.len());
        if p == seq![s[0]] && s[0] != '"' && s[0] != '\\' {
            lemma_scalar_bytes_plain(s[0]);
            assert(encode_utf8(p) =~= encode_scalar(s[0] as u32) + encode_utf8(p.drop_first()));
            assert(encode_scalar(s[0] as u32).len() > 0);
            assert(b[1] == encode_scalar(s[0] as u32)[0]);
        } else {
            lemma_ascii_scalar(92);
            assert(('\\' as u32) == 92);
            assert(encode_utf8(p) =~= encode_scalar(92) + encode_utf8(p.drop_first()));
            assert(b[1] == 92);
        }
        assert(byte_at(b, 1) != 34);
    }
}

} // verus!
