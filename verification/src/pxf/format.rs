//! Formats a `Document` back to PXF source text, keeping comments.
//!
//! Lossy in two ways: list elements always come out comma-separated, and the
//! string quoter re-emits only the escapes `\"`, `\\`, `\n`, `\t` and `\r`;
//! other characters, control characters included, pass through as they
//! are. Directives other than `@type` are not written.
use vstd::prelude::*;

use crate::pxf::ast::{Comment, Document, Entry, Value};
use crate::pxf::base64::{base64_encode_spec, encode_base64};
use crate::pxf::lexer::{escaped_by, escapes_to, lemma_escaped_by_push, lemma_escaped_string_lexes, string_at, token_at};
use crate::pxf::token::TokenKind;
use crate::text::{chars_of, owned, push_char, push_str};
use vstd::utf8::encode_utf8;

verus! {

// ---------------------------------------------------------------- the text
pub open spec fn escape_char(c: char) -> Seq<char> {
    if c == '\\' {
        seq!['\\', '\\']
    } else if c == '"' {
        seq!['\\', '"']
    } else if c == '\n' {
        seq!['\\', 'n']
    } else if c == '\t' {
        seq!['\\', 't']
    } else if c == '\r' {
        seq!['\\', 'r']
    } else {
        seq![c]
    }
}

pub open spec fn escape_text(s: Seq<char>) -> Seq<char>
    decreases s.len(),
{
    if s.len() == 0 {
        seq![]
    } else {
        escape_text(s.drop_last()) + escape_char(s.last())
    }
}

/// `s` as a quoted PXF string.
pub open spec fn quote_text(s: Seq<char>) -> Seq<char> {
    seq!['"'] + escape_text(s) + seq!['"']
}

pub open spec fn is_key_start(c: char) -> bool {
    (97 <= (c as u32) <= 122) || (65 <= (c as u32) <= 90) || c == '_'
}

pub open spec fn is_key_digit(c: char) -> bool {
    48 <= (c as u32) <= 57
}

/// A map key needs quotes unless it is `[A-Za-z_][A-Za-z0-9_]*`; numeric
/// keys such as `404` are quoted.
pub open spec fn key_needs_quoting(s: Seq<char>) -> bool {
    s.len() == 0 || !is_key_start(s[0]) || exists|i: int|
        1 <= i < s.len() && !(is_key_start(#[trigger] s[i]) || is_key_digit(s[i]))
}

/// An entry name as written: quoted when it was quoted.
pub open spec fn name_text(name: Seq<char>, quoted: bool) -> Seq<char> {
    if quoted {
        quote_text(name)
    } else {
        name
    }
}

pub open spec fn trailing_text(t: Seq<char>) -> Seq<char> {
    if t.len() == 0 {
        seq![]
    } else {
        seq![' '] + t
    }
}

/// One line per comment, each at indentation `ind`.
pub open spec fn comments_text(cs: Seq<Comment>, ind: Seq<char>) -> Seq<char>
    decreases cs.len(),
{
    if cs.len() == 0 {
        seq![]
    } else {
        comments_text(cs.drop_last(), ind) + ind + cs.last().text@ + seq!['\n']
    }
}

/// A value written at indentation `ind`, nested parts one `unit` deeper.
pub open spec fn value_text(v: Value, ind: Seq<char>, unit: Seq<char>) -> Seq<char>
    decreases v,
{
    match v {
        Value::String(s) => quote_text(s.value@),
        Value::Int(i) => i.raw@,
        Value::Float(f) => f.raw@,
        Value::Bool(b) => if b.value {
            "true"@
        } else {
            "false"@
        },
        Value::Bytes(b) => "b\""@ + base64_encode_spec(b.value@).map_values(|c: u8| c as char)
            + "\""@,
        Value::Null(_) => "null"@,
        Value::Ident(i) => i.name@,
        Value::Timestamp(t) => t.raw@,
        Value::Duration(d) => d.raw@,
        Value::List(l) => "[\n"@ + elems_text(l.elements@, ind + unit, unit) + ind + "]"@,
        Value::Block(b) => "{\n"@ + entries_text(b.entries@, ind + unit, unit) + ind + "}"@,
    }
}

/// List elements, one per line at `ind`, all but the last followed by a
/// comma.
pub open spec fn elems_text(es: Seq<Value>, ind: Seq<char>, unit: Seq<char>) -> Seq<char>
    decreases es,
{
    if es.len() == 0 {
        seq![]
    } else {
        comma_elems_text(es.drop_last(), ind, unit) + ind + value_text(es.last(), ind, unit)
            + seq!['\n']
    }
}

pub open spec fn comma_elems_text(es: Seq<Value>, ind: Seq<char>, unit: Seq<char>) -> Seq<char>
    decreases es,
{
    if es.len() == 0 {
        seq![]
    } else {
        comma_elems_text(es.drop_last(), ind, unit) + ind + value_text(es.last(), ind, unit)
            + seq![',', '\n']
    }
}

pub open spec fn entry_text(e: Entry, ind: Seq<char>, unit: Seq<char>) -> Seq<char>
    decreases e,
{
    match e {
        Entry::Assignment(a) => comments_text(a.leading_comments@, ind) + ind + name_text(
            a.key@,
            a.key_quoted,
        ) + " = "@ + value_text(a.value, ind, unit) + trailing_text(a.trailing_comment@) + seq![
            '\n',
        ],
        Entry::MapEntry(m) => comments_text(m.leading_comments@, ind) + ind + (if key_needs_quoting(
            m.key@,
        ) {
            quote_text(m.key@)
        } else {
            m.key@
        }) + ": "@ + value_text(m.value, ind, unit) + trailing_text(m.trailing_comment@) + seq![
            '\n',
        ],
        Entry::Block(b) => comments_text(b.leading_comments@, ind) + ind + name_text(
            b.name@,
            b.name_quoted,
        ) + " {\n"@ + entries_text(b.entries@, ind + unit, unit) + ind + "}\n"@,
    }
}

pub open spec fn entries_text(es: Seq<Entry>, ind: Seq<char>, unit: Seq<char>) -> Seq<char>
    decreases es,
{
    if es.len() == 0 {
        seq![]
    } else {
        entries_text(es.drop_last(), ind, unit) + entry_text(es.last(), ind, unit)
    }
}

/// The whole document: `@type` and a blank line when there is a type, the
/// leading comments, then the entries, indented by `unit` per level.
pub open spec fn document_text(doc: Document, unit: Seq<char>) -> Seq<char> {
    (if doc.type_url@.len() == 0 {
        seq![]
    } else {
        "@type "@ + doc.type_url@ + "\n\n"@
    }) + comments_text(doc.leading_comments@, seq![]) + entries_text(doc.entries@, seq![], unit)
}

// ---------------------------------------------------------------- options
/// Formatting options.
#[derive(Debug, Clone)]
pub struct FormatOptions {
    /// The indentation unit; two spaces by default.
    pub indent: String,
}

impl Default for FormatOptions {
    fn default() -> (o: FormatOptions)
        ensures
            o.indent@ == "  "@,
    {
        FormatOptions { indent: owned("  ") }
    }
}

// ---------------------------------------------------------------- writing
/// `s` in quotes, with `\`, `"`, newline, tab and carriage return escaped.
pub fn quote_string(s: &str) -> (r: String)
    ensures
        r@ == quote_text(s@),
{
    let t = chars_of(s);
    let mut out = String::new();
    push_char(&mut out, '"');
    let mut k: usize = 0;
    while k < t.len()
        invariant
            k <= t@.len(),
            t@ == s@,
            out@ == seq!['"'] + escape_text(t@.subrange(0, k as int)),
        decreases t@.len() - k,
    {
        let c = t[k];
        if c == '\\' {
            push_str(&mut out, "\\\\");
        } else if c == '"' {
            push_str(&mut out, "\\\"");
        } else if c == '\n' {
            push_str(&mut out, "\\n");
        } else if c == '\t' {
            push_str(&mut out, "\\t");
        } else if c == '\r' {
            push_str(&mut out, "\\r");
        } else {
            push_char(&mut out, c);
        }
        proof {
            reveal_strlit("\\\\");
            reveal_strlit("\\\"");
            reveal_strlit("\\n");
            reveal_strlit("\\t");
            reveal_strlit("\\r");
            assert(t@.subrange(0, k + 1).drop_last() == t@.subrange(0, k as int));
        }
        k = k + 1;
    }
    push_char(&mut out, '"');
    assert(t@.subrange(0, t@.len() as int) == t@);
    out
}

fn key_start(c: char) -> (r: bool)
    ensures
        r == is_key_start(c),
{
    let u = c as u32;
    (u >= 97 && u <= 122) || (u >= 65 && u <= 90) || c == '_'
}

/// Whether a map key needs quotes: unless it is `[A-Za-z_][A-Za-z0-9_]*`.
pub fn needs_quoting(s: &str) -> (r: bool)
    ensures
        r == key_needs_quoting(s@),
{
    let t = chars_of(s);
    if t.len() == 0 || !key_start(t[0]) {
        return true;
    }
    let mut k: usize = 1;
    while k < t.len()
        invariant
            1 <= k <= t@.len(),
            t@ == s@,
            is_key_start(t@[0]),
            forall|i: int| 1 <= i < k ==> is_key_start(#[trigger] t@[i]) || is_key_digit(t@[i]),
        decreases t@.len() - k,
    {
        let c = t[k];
        let u = c as u32;
        if !(key_start(c) || (u >= 48 && u <= 57)) {
            return true;
        }
        k = k + 1;
    }
    false
}

fn write_comments(out: &mut String, cs: &Vec<Comment>, ind: &str)
    ensures
        final(out)@ == old(out)@ + comments_text(cs@, ind@),
{
    let ghost o = old(out)@;
    let mut k: usize = 0;
    while k < cs.len()
        invariant
            k <= cs@.len(),
            out@ == o + comments_text(cs@.subrange(0, k as int), ind@),
        decreases cs@.len() - k,
    {
        push_str(out, ind);
        push_str(out, cs[k].text.as_str());
        push_char(out, '\n');
        proof {
            let p = cs@.subrange(0, k + 1);
            assert(p.drop_last() == cs@.subrange(0, k as int));
            assert(p.last() == cs@[k as int]);
        }
        k = k + 1;
    }
    assert(cs@.subrange(0, cs@.len() as int) == cs@);
}

fn write_name(out: &mut String, name: &String, quoted: bool)
    ensures
        final(out)@ == old(out)@ + name_text(name@, quoted),
{
    if quoted {
        let q = quote_string(name.as_str());
        push_str(out, q.as_str());
    } else {
        push_str(out, name.as_str());
    }
}

fn write_trailing(out: &mut String, t: &String)
    ensures
        final(out)@ == old(out)@ + trailing_text(t@),
{
    if !t.as_str().is_empty() {
        push_char(out, ' ');
        push_str(out, t.as_str());
    }
}

fn format_value(out: &mut String, v: &Value, ind: &str, unit: &str)
    ensures
        final(out)@ == old(out)@ + value_text(*v, ind@, unit@),
    decreases v,
{
    match v {
        Value::String(s) => {
            let q = quote_string(s.value.as_str());
            push_str(out, q.as_str());
        },
        Value::Int(i) => push_str(out, i.raw.as_str()),
        Value::Float(f) => push_str(out, f.raw.as_str()),
        Value::Bool(b) => {
            if b.value {
                push_str(out, "true");
            } else {
                push_str(out, "false");
            }
        },
        Value::Bytes(b) => {
            push_str(out, "b\"");
            let e = encode_base64(b.value.as_slice());
            push_str(out, e.as_str());
            push_str(out, "\"");
        },
        Value::Null(_) => push_str(out, "null"),
        Value::Ident(i) => push_str(out, i.name.as_str()),
        Value::Timestamp(t) => push_str(out, t.raw.as_str()),
        Value::Duration(d) => push_str(out, d.raw.as_str()),
        Value::List(l) => {
            push_str(out, "[\n");
            let inner = crate::text::concat(ind, unit);
            format_elems(out, &l.elements, inner.as_str(), unit);
            push_str(out, ind);
            push_str(out, "]");
        },
        Value::Block(b) => {
            push_str(out, "{\n");
            let inner = crate::text::concat(ind, unit);
            format_entries(out, &b.entries, inner.as_str(), unit);
            push_str(out, ind);
            push_str(out, "}");
        },
    }
}

fn format_elems(out: &mut String, es: &Vec<Value>, ind: &str, unit: &str)
    ensures
        final(out)@ == old(out)@ + elems_text(es@, ind@, unit@),
    decreases es,
{
    let ghost o = old(out)@;
    let n = es.len();
    if n == 0 {
        return ;
    }
    let mut k: usize = 0;
    while k < n - 1
        invariant
            k <= n - 1,
            n == es@.len(),
            out@ == o + comma_elems_text(es@.subrange(0, k as int), ind@, unit@),
        decreases n - k,
    {
        push_str(out, ind);
        format_value(out, &es[k], ind, unit);
        push_str(out, ",\n");
        proof {
            let p = es@.subrange(0, k + 1);
            assert(p.drop_last() == es@.subrange(0, k as int));
            assert(p.last() == es@[k as int]);
            reveal_strlit(",\n");
        }
        k = k + 1;
    }
    push_str(out, ind);
    format_value(out, &es[n - 1], ind, unit);
    push_char(out, '\n');
    assert(es@.drop_last() == es@.subrange(0, n - 1));
}

fn format_entry(out: &mut String, e: &Entry, ind: &str, unit: &str)
    ensures
        final(out)@ == old(out)@ + entry_text(*e, ind@, unit@),
    decreases e,
{
    match e {
        Entry::Assignment(a) => {
            write_comments(out, &a.leading_comments, ind);
            push_str(out, ind);
            write_name(out, &a.key, a.key_quoted);
            push_str(out, " = ");
            format_value(out, &a.value, ind, unit);
            write_trailing(out, &a.trailing_comment);
            push_char(out, '\n');
        },
        Entry::MapEntry(m) => {
            write_comments(out, &m.leading_comments, ind);
            push_str(out, ind);
            if needs_quoting(m.key.as_str()) {
                let q = quote_string(m.key.as_str());
                push_str(out, q.as_str());
            } else {
                push_str(out, m.key.as_str());
            }
            push_str(out, ": ");
            format_value(out, &m.value, ind, unit);
            write_trailing(out, &m.trailing_comment);
            push_char(out, '\n');
        },
        Entry::Block(b) => {
            write_comments(out, &b.leading_comments, ind);
            push_str(out, ind);
            write_name(out, &b.name, b.name_quoted);
            push_str(out, " {\n");
            let inner = crate::text::concat(ind, unit);
            format_entries(out, &b.entries, inner.as_str(), unit);
            push_str(out, ind);
            push_str(out, "}\n");
        },
    }
}

fn format_entries(out: &mut String, es: &Vec<Entry>, ind: &str, unit: &str)
    ensures
        final(out)@ == old(out)@ + entries_text(es@, ind@, unit@),
    decreases es,
{
    let ghost o = old(out)@;
    let mut k: usize = 0;
    while k < es.len()
        invariant
            k <= es@.len(),
            out@ == o + entries_text(es@.subrange(0, k as int), ind@, unit@),
        decreases es@.len() - k,
    {
        format_entry(out, &es[k], ind, unit);
        proof {
            let p = es@.subrange(0, k + 1);
            assert(p.drop_last() == es@.subrange(0, k as int));
            assert(p.last() == es@[k as int]);
        }
        k = k + 1;
    }
    assert(es@.subrange(0, es@.len() as int) == es@);
}

/// The document as PXF text, indented with `opts.indent`.
pub fn format_with_options(doc: &Document, opts: &FormatOptions) -> (r: String)
    ensures
        r@ == document_text(*doc, opts.indent@),
{
    let mut out = String::new();
    proof {
        reveal_strlit("");
        assert(""@ =~= Seq::<char>::empty());
    }
    if !doc.type_url.as_str().is_empty() {
        push_str(&mut out, "@type ");
        push_str(&mut out, doc.type_url.as_str());
        push_str(&mut out, "\n\n");
    }
    write_comments(&mut out, &doc.leading_comments, "");
    format_entries(&mut out, &doc.entries, "", opts.indent.as_str());
    out
}

/// The document as PXF text, indented by two spaces per level.
pub fn format(doc: &Document) -> (r: String)
    ensures
        r@ == document_text(*doc, "  "@),
{
    let opts = FormatOptions::default();
    format_with_options(doc, &opts)
}


// ---------------------------------------------------------------- laws
proof fn lemma_escape_char_reads_back(c: char)
    ensures
        escapes_to(c, escape_char(c)),
{
    assert(('\\' as u32) == 92);
    assert(('"' as u32) == 34);
    assert(('\n' as u32) == 10);
    assert(('\t' as u32) == 9);
    assert(('\r' as u32) == 13);
    assert(('n' as u32) == 110);
    assert(('t' as u32) == 116);
    assert(('r' as u32) == 114);
}

proof fn lemma_escape_text_is_escaped_by(s: Seq<char>)
    ensures
        escape_text(s) == escaped_by(|c: char| escape_char(c), s),
    decreases s.len(),
{
    let esc = |c: char| escape_char(c);
    if s.len() == 0 {
        assert(escaped_by(esc, s) =~= Seq::<char>::empty());
    } else {
        lemma_escape_text_is_escaped_by(s.drop_last());
        lemma_escaped_by_push(esc, s.drop_last(), s.last());
        assert(s.drop_last().push(s.last()) =~= s);
    }
}

/// Formatting keeps string values: the quoted text the formatter writes for
/// any string `s`, whatever follows it, lexes back as a `String` token whose
/// value is exactly `s`, ending right after the closing quote; and it is the
/// token the lexer reads there unless `s` is empty and another quote follows.
pub proof fn lemma_quote_text_lexes(s: Seq<char>, rest: Seq<u8>)
    ensures
        string_at(encode_utf8(quote_text(s)) + rest, 0) == (
            TokenKind::String,
            s,
            encode_utf8(quote_text(s)).len() as int,
        ),
        (s.len() > 0 || rest.len() == 0 || rest[0] != 34) ==> token_at(
            encode_utf8(quote_text(s)) + rest,
            0,
        ) == string_at(encode_utf8(quote_text(s)) + rest, 0),
{
    let esc = |c: char| escape_char(c);
    assert forall|c: char| escapes_to(c, #[trigger] esc(c)) by {
        lemma_escape_char_reads_back(c);
    }
    lemma_escape_text_is_escaped_by(s);
    lemma_escaped_string_lexes(esc, s, rest);
}

} // verus!
