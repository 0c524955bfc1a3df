//! Recursive-descent parser for PXF.
//!
//! Newlines and comments are absorbed at the token boundary: comments
//! collect in a pending list and attach as `leading_comments` to the next
//! entry or directive.
//!
//! A document opens with directives: `@type <name>`, `@<name> *(<prefix>)
//! [{ ... }]`, `@table` / `@dataset <type> ( cols ) row*` and `@proto
//! <body>`; the schema-typed body of entries follows. Every `{` and `[`
//! counts toward the nesting limit.
use vstd::prelude::*;
use vstd::string::StringSliceAdditionalSpecFns;
use vstd::utf8::encode_utf8;

use crate::pxf::ast::{
    Assignment, Block, BlockVal, BoolVal, BytesVal, Comment, DatasetDirective, DatasetRow,
    Directive, Document, DurationVal, Entry, FloatVal, IdentVal, IntVal, ListVal, MapEntry,
    NullVal, ProtoDirective, ProtoShape, StringVal, TimestampVal, Value,
};
use crate::pxf::base64::{base64_decode_spec, decode_base64};
use crate::pxf::errors::PxfError;
use crate::pxf::lexer::{lexed_as, position_at, scan, token_at, ByteClass, Lexed, Lexer};
use crate::pxf::limits::{message_size_error, Limits};
use crate::pxf::scan::{find_matching, match_close};
use crate::pxf::schema::{future_reserved_directive, is_future_reserved_directive};
use crate::pxf::token::{token_kind_name, Position, Token, TokenKind};
use crate::text::{owned, push_char, push_decimal, push_str, str_is};

verus! {

// ---------------------------------------------------------------- the laws
/// A value, nested at most `d` more levels of `{` / `[`, with every bytes
/// literal within the limit.
pub open spec fn value_ok(v: Value, d: int, lim: Limits) -> bool
    decreases v,
{
    match v {
        Value::List(l) => d >= 1 && forall|i: int|
            0 <= i < l.elements@.len() ==> value_ok(#[trigger] l.elements@[i], d - 1, lim),
        Value::Block(b) => d >= 1 && forall|i: int|
            0 <= i < b.entries@.len() ==> entry_ok(#[trigger] b.entries@[i], d - 1, true, lim),
        Value::Bytes(b) => b.value@.len() <= lim.max_bytes_literal_length,
        _ => true,
    }
}

/// An entry as the parser builds it: a `key: value` map entry only inside a
/// block (`in_block`), and values as [`value_ok`] says.
pub open spec fn entry_ok(e: Entry, d: int, in_block: bool, lim: Limits) -> bool
    decreases e,
{
    match e {
        Entry::Assignment(a) => value_ok(a.value, d, lim),
        Entry::MapEntry(m) => in_block && value_ok(m.value, d, lim),
        Entry::Block(b) => d >= 1 && forall|i: int|
            0 <= i < b.entries@.len() ==> entry_ok(#[trigger] b.entries@[i], d - 1, true, lim),
    }
}

pub open spec fn entries_ok(es: Seq<Entry>, d: int, in_block: bool, lim: Limits) -> bool {
    forall|i: int| 0 <= i < es.len() ==> entry_ok(#[trigger] es[i], d, in_block, lim)
}

/// Directive names the grammar keeps for itself.
/// A `@table` / `@dataset` directive: at least one column, no dotted
/// column, every row as many cells as columns, no list or block cell.
pub open spec fn dataset_ok(t: DatasetDirective, lim: Limits) -> bool {
    &&& t.columns@.len() >= 1
    &&& forall|c: int| 0 <= c < t.columns@.len() ==> !(#[trigger] t.columns@[c])@.contains('.')
    &&& forall|r: int|
        0 <= r < t.rows@.len() ==> (#[trigger] t.rows@[r]).cells@.len() == t.columns@.len()
    &&& forall|r: int, c: int|
        0 <= r < t.rows@.len() && 0 <= c < t.rows@[r].cells@.len() ==> match #[trigger] t.rows@[r].cells@[c] {
            Some(v) => !(v is List) && !(v is Block) && value_ok(v, 0, lim),
            None => true,
        }
}

/// A `@<name>` directive: not a reserved name, no body bytes without a
/// block, and the one prefix as its type exactly when there is one prefix.
pub open spec fn directive_ok(d: Directive) -> bool {
    &&& !future_reserved_directive(d.name@)
    &&& !d.has_body ==> d.body@.len() == 0
    &&& d.message_type@ == if d.prefixes@.len() == 1 {
        d.prefixes@[0]@
    } else {
        Seq::<char>::empty()
    }
}

/// What every document the parser returns satisfies.
pub open spec fn document_ok(doc: Document, lim: Limits) -> bool {
    &&& entries_ok(doc.entries@, lim.max_nesting_depth as int, false, lim)
    &&& forall|i: int| 0 <= i < doc.tables@.len() ==> dataset_ok(#[trigger] doc.tables@[i], lim)
    &&& forall|i: int|
        0 <= i < doc.datasets@.len() ==> dataset_ok(#[trigger] doc.datasets@[i], lim)
    &&& forall|i: int| 0 <= i < doc.directives@.len() ==> directive_ok(#[trigger] doc.directives@[i])
    &&& forall|i: int|
        0 <= i < doc.protos@.len() ==> ((#[trigger] doc.protos@[i]).shape != ProtoShape::Named
            ==> doc.protos@[i].message_name@.len() == 0)
    &&& (doc.tables@.len() > 0 || doc.datasets@.len() > 0) ==> (doc.type_url@.len() == 0
        && doc.entries@.len() == 0)
}

/// The directive name an `@<name>` token carries: its text after the `@`.
pub open spec fn directive_name_of(v: Seq<char>) -> Option<Seq<char>> {
    if v.len() >= 2 && v[0] == '@' {
        Some(v.subrange(1, v.len() as int))
    } else {
        None
    }
}

/// What an `=` or block key must be, as the error for a key of kind `k`
/// says it: a bool keyword is told it is no identifier.
pub open spec fn key_requirement(k: TokenKind) -> Seq<char> {
    if k == TokenKind::Bool {
        "an identifier key"@
    } else {
        "an identifier or string key"@
    }
}

fn key_requirement_text(k: TokenKind) -> (s: &'static str)
    ensures
        s@ == key_requirement(k),
{
    if k == TokenKind::Bool {
        "an identifier key"
    } else {
        "an identifier or string key"
    }
}

/// The error for a document past the nesting limit.
pub open spec fn depth_error(max: nat) -> Seq<char> {
    "nesting depth exceeds MaxNestingDepth ("@ + crate::text::decimal_chars(max) + ")"@
}

/// The error for a bytes literal past the size limit.
pub open spec fn bytes_limit_error(max: nat) -> Seq<char> {
    "bytes literal decodes to more than MaxBytesLiteralLength="@ + crate::text::decimal_chars(max)
        + " bytes"@
}

/// The token the parser reads next from offset `i`: the first the lexer
/// yields that is not a newline or a comment, with the offset it starts at.
pub open spec fn sig(s: Seq<u8>, i: int) -> (Lexed, int)
    decreases s.len() - i,
{
    let st = scan(s, i, ByteClass::Space);
    let r = token_at(s, st);
    if (r.0 == TokenKind::Newline || r.0 == TokenKind::Comment) && i < r.2 <= s.len() {
        sig(s, r.2)
    } else {
        (r, st)
    }
}

/// The identifiers the parser reads from offset `i` while they stand on
/// line `line`, and the offset the token after them is read from.
pub open spec fn prefix_run(s: Seq<u8>, i: int, line: usize) -> (Seq<Seq<char>>, int)
    decreases s.len() - i,
{
    let t = sig(s, i);
    if t.0.0 == TokenKind::Ident && position_at(s, t.1).line == line && i < t.0.2 <= s.len() {
        let rest = prefix_run(s, t.0.2, line);
        (seq![t.0.1] + rest.0, rest.1)
    } else {
        (seq![], i)
    }
}

/// Whether a value token makes a dataset cell: a scalar, or a bytes
/// literal within the limit.
pub open spec fn cell_token(t: Lexed, lim: Limits) -> bool {
    scalar_kind(t.0) || (t.0 == TokenKind::Bytes && base64_decode_spec(encode_utf8(t.1)).len()
        <= lim.max_bytes_literal_length)
}

/// Where the token after a dataset cell read from offset `i` is read from:
/// `i` itself for an empty cell, past the value for a cell token, and `-1`
/// when the token there starts no cell.
pub open spec fn cell_end(s: Seq<u8>, i: int, lim: Limits) -> int {
    let t = sig(s, i).0;
    if t.0 == TokenKind::Comma || t.0 == TokenKind::RParen {
        i
    } else if cell_token(t, lim) {
        t.2
    } else {
        -1
    }
}

/// How many cells a dataset row holds whose cells are read from offset `i`
/// up to and including its `)`, and the offset just past that `)`; `None`
/// when they do not read.
pub open spec fn row_cells(s: Seq<u8>, i: int, lim: Limits) -> Option<(nat, int)>
    decreases s.len() - i,
{
    let e = cell_end(s, i, lim);
    if e < 0 {
        None
    } else {
        let sep = sig(s, e).0;
        if sep.0 == TokenKind::RParen {
            Some((1, sep.2))
        } else if sep.0 == TokenKind::Comma && i < sep.2 <= s.len() {
            match row_cells(s, sep.2, lim) {
                Some((n, end)) => Some((n + 1, end)),
                None => None,
            }
        } else {
            None
        }
    }
}

/// The column names of a dataset read from offset `i` up to and including
/// the `)` that closes them, and the offset just past it; `None` when they do
/// not read: a token that is no identifier, a dotted name, or a bad
/// separator.
pub open spec fn column_run(s: Seq<u8>, i: int) -> Option<(Seq<Seq<char>>, int)>
    decreases s.len() - i,
{
    let t = sig(s, i).0;
    if t.0 != TokenKind::Ident || t.1.contains('.') {
        None
    } else {
        let sep = sig(s, t.2).0;
        if sep.0 == TokenKind::RParen {
            Some((seq![t.1], sep.2))
        } else if sep.0 == TokenKind::Comma && i < sep.2 <= s.len() {
            match column_run(s, sep.2) {
                Some((cs, e)) => Some((seq![t.1] + cs, e)),
                None => None,
            }
        } else {
            None
        }
    }
}

/// How many rows of `ncols` cells a dataset holds whose rows are read from
/// offset `i`, and the offset the token that ends them is read from: the
/// first token that is no `(`. `None` when a row does not read or holds
/// another number of cells.
pub open spec fn rows_run(s: Seq<u8>, i: int, ncols: nat, lim: Limits) -> Option<(nat, int)>
    decreases s.len() - i,
{
    let t = sig(s, i).0;
    if t.0 != TokenKind::LParen {
        Some((0, i))
    } else {
        match row_cells(s, t.2, lim) {
            Some((n, e)) => if n == ncols && i < e <= s.len() {
                match rows_run(s, e, ncols, lim) {
                    Some((k, q)) => Some((k + 1, q)),
                    None => None,
                }
            } else {
                None
            },
            None => None,
        }
    }
}

/// What a `@table` / `@dataset` directive read from offset `i` (just past
/// its directive token) holds: its row type, its columns, its number of rows
/// and the offset the token after it is read from; `None` when it does not
/// read. The type may be left out only where `type_optional`, and without
/// it a `{` there is refused.
pub open spec fn dataset_run(s: Seq<u8>, i: int, type_optional: bool, lim: Limits) -> Option<
    (Seq<char>, Seq<Seq<char>>, nat, int),
> {
    let t1 = sig(s, i).0;
    if !type_optional && t1.0 == TokenKind::LBrace {
        None
    } else if !(t1.0 == TokenKind::Ident || (type_optional && t1.0 == TokenKind::LParen)) {
        None
    } else {
        let ty = if t1.0 == TokenKind::Ident {
            t1.1
        } else {
            Seq::<char>::empty()
        };
        let j = if t1.0 == TokenKind::Ident {
            t1.2
        } else {
            i
        };
        let t2 = sig(s, j).0;
        if t2.0 != TokenKind::LParen {
            None
        } else {
            match column_run(s, t2.2) {
                None => None,
                Some((cols, e)) => match rows_run(s, e, cols.len(), lim) {
                    Some((n, q)) => Some((ty, cols, n, q)),
                    None => None,
                },
            }
        }
    }
}

/// A row of the right number of cells is one step of reading the rows.
proof fn lemma_rows_step(s: Seq<u8>, i: int, ncols: nat, lim: Limits)
    requires
        sig(s, i).0.0 == TokenKind::LParen,
        row_cells(s, sig(s, i).0.2, lim) matches Some((n, e)) && n == ncols && i < e <= s.len(),
    ensures
        rows_run(s, i, ncols, lim) == add_k(
            rows_run(s, row_cells(s, sig(s, i).0.2, lim)->Some_0.1, ncols, lim),
            1,
        ),
{
}

/// `k` more than the number, if there is one.
pub open spec fn add_k(o: Option<(nat, int)>, k: nat) -> Option<(nat, int)> {
    match o {
        Some((n, q)) => Some((n + k, q)),
        None => None,
    }
}

/// `k` more than the count, if there is one.
pub open spec fn add_n(o: Option<(nat, int)>, k: nat) -> Option<(nat, int)> {
    match o {
        Some((n, e)) => Some((n + k, e)),
        None => None,
    }
}

/// Where the token after a `@proto` directive is read from, its body read
/// from offset `i` (just past the `@proto` token); `None` when the body
/// does not read.
pub open spec fn proto_end(s: Seq<u8>, i: int) -> Option<int> {
    let a = sig(s, i).0;
    let b = sig(s, a.2).0;
    if a.0 == TokenKind::LBrace {
        match match_close(s, a.2, 1, 123, 125) {
            Ok(Some(j)) => Some(j + 1),
            _ => None,
        }
    } else if a.0 == TokenKind::Ident {
        if b.0 != TokenKind::LBrace {
            None
        } else {
            match match_close(s, b.2, 1, 123, 125) {
                Ok(Some(j)) => Some(j + 1),
                _ => None,
            }
        }
    } else if a.0 == TokenKind::String || a.0 == TokenKind::Bytes {
        Some(a.2)
    } else {
        None
    }
}

/// Where the token after a `@<name>` directive on line `line` is read
/// from, its prefixes read from offset `i`; `None` when a body opened on
/// that line has no matching `}`.
pub open spec fn directive_end(s: Seq<u8>, i: int, line: usize) -> Option<int> {
    let run = prefix_run(s, i, line);
    let stop = sig(s, run.1);
    if stop.0.0 == TokenKind::LBrace && position_at(s, stop.1).line == line {
        match match_close(s, stop.0.2, 1, 123, 125) {
            Ok(Some(j)) => Some(j + 1),
            _ => None,
        }
    } else {
        Some(run.1)
    }
}

/// One step through the directives at the head of a document, with the
/// current token read from offset `i` and `typed`, `tabled` and
/// `datasetted` telling whether a `@type`, a `@table` or a `@dataset` came
/// before: `Some(None)` where the token starts no directive, `Some(Some(..))`
/// with the offset the token after the directive is read from and the three
/// flags then, and `None` where the directive does not read or cannot stand
/// with those before it.
#[verifier::opaque]
pub open spec fn header_step(
    s: Seq<u8>,
    i: int,
    typed: bool,
    tabled: bool,
    datasetted: bool,
    lim: Limits,
) -> Option<Option<(int, bool, bool, bool)>> {
    let t = sig(s, i).0;
    if t.0 == TokenKind::AtType {
        let n = sig(s, t.2).0;
        if tabled || datasetted || n.0 != TokenKind::Ident {
            None
        } else {
            Some(Some((n.2, n.1.len() > 0, tabled, datasetted)))
        }
    } else if t.0 == TokenKind::AtDataset {
        if typed {
            None
        } else {
            match dataset_run(s, t.2, true, lim) {
                Some((_, _, _, q)) => Some(Some((q, typed, tabled, true))),
                None => None,
            }
        }
    } else if t.0 == TokenKind::AtProto {
        match proto_end(s, t.2) {
            Some(e) => Some(Some((e, typed, tabled, datasetted))),
            None => None,
        }
    } else if t.0 == TokenKind::Illegal && directive_name_of(t.1) is Some {
        let name = directive_name_of(t.1)->Some_0;
        if name == "table"@ {
            if typed {
                None
            } else {
                match dataset_run(s, t.2, false, lim) {
                    Some((_, _, _, q)) => Some(Some((q, typed, true, datasetted))),
                    None => None,
                }
            }
        } else if future_reserved_directive(name) {
            None
        } else {
            match directive_end(s, t.2, position_at(s, sig(s, i).1).line) {
                Some(e) => Some(Some((e, typed, tabled, datasetted))),
                None => None,
            }
        }
    } else {
        Some(None)
    }
}

/// The directives at the head of a document read from offset `i`, step by
/// step: the offset the first token after them is read from and the three
/// flags then; `None` when a step fails.
pub open spec fn header_run(
    s: Seq<u8>,
    i: int,
    typed: bool,
    tabled: bool,
    datasetted: bool,
    lim: Limits,
) -> Option<(int, bool, bool, bool)>
    decreases s.len() - i,
{
    match header_step(s, i, typed, tabled, datasetted, lim) {
        None => None,
        Some(None) => Some((i, typed, tabled, datasetted)),
        Some(Some((j, a, b, c))) => if i < j <= s.len() {
            header_run(s, j, a, b, c, lim)
        } else {
            None
        },
    }
}

/// An offset past the end of the input reads the end of the input there.
proof fn lemma_sig_past_end(s: Seq<u8>, j: int)
    requires
        j > s.len(),
    ensures
        sig(s, j).0.2 == j,
{
}

/// The head of a document as far as it is read: no entries yet, and what
/// [`document_ok`] asks of its directives.
pub open spec fn head_ok(doc: Document, lim: Limits) -> bool {
    &&& doc.entries@.len() == 0
    &&& forall|i: int| 0 <= i < doc.tables@.len() ==> dataset_ok(#[trigger] doc.tables@[i], lim)
    &&& forall|i: int|
        0 <= i < doc.datasets@.len() ==> dataset_ok(#[trigger] doc.datasets@[i], lim)
    &&& forall|i: int| 0 <= i < doc.directives@.len() ==> directive_ok(#[trigger] doc.directives@[i])
    &&& forall|i: int|
        0 <= i < doc.protos@.len() ==> ((#[trigger] doc.protos@[i]).shape != ProtoShape::Named
            ==> doc.protos@[i].message_name@.len() == 0)
    &&& (doc.tables@.len() > 0 || doc.datasets@.len() > 0) ==> doc.type_url@.len() == 0
}

/// The top-level entries of a document from token `t` to the end of the
/// input read, each with `d` levels of nesting allowed.
pub open spec fn entries_run(s: Seq<u8>, t: Lexed, d: int, lim: Limits) -> bool
    decreases s.len() - t.2,
{
    if t.0 == TokenKind::Eof {
        true
    } else {
        match entry_run(s, t, d, false, lim) {
            Some(w) => if w.0 == TokenKind::Eof {
                true
            } else if t.2 < w.2 <= s.len() {
                entries_run(s, w, d, lim)
            } else {
                false
            },
            None => false,
        }
    }
}

/// Whether `s` reads as a document under `lim`: its directives, then its
/// entries, none where a `@table` or `@dataset` stands.
pub open spec fn document_reads(s: Seq<u8>, lim: Limits) -> bool {
    match header_run(s, 0, false, false, false, lim) {
        None => false,
        Some((i, _, tabled, datasetted)) => {
            let t = sig(s, i).0;
            t.0 == TokenKind::Eof || (!tabled && !datasetted && entries_run(
                s,
                t,
                lim.max_nesting_depth as int,
                lim,
            ))
        },
    }
}

/// Whether `p` is exactly the `@proto` directive at `pos` whose body is
/// read from offset `i` (just past the `@proto` token); its comments are
/// not part of it.
#[verifier::opaque]
pub open spec fn proto_fields(s: Seq<u8>, i: int, pos: Position, p: ProtoDirective) -> bool {
    let a = sig(s, i).0;
    let b = sig(s, a.2).0;
    &&& p.pos == pos
    &&& if a.0 == TokenKind::LBrace {
        match match_close(s, a.2, 1, 123, 125) {
            Ok(Some(j)) => p.shape == ProtoShape::Anonymous && p.message_name@.len() == 0 && p.body@
                == s.subrange(a.2, j),
            _ => false,
        }
    } else if a.0 == TokenKind::Ident {
        b.0 == TokenKind::LBrace && match match_close(s, b.2, 1, 123, 125) {
            Ok(Some(j)) => p.shape == ProtoShape::Named && p.message_name@ == a.1 && p.body@
                == s.subrange(b.2, j),
            _ => false,
        }
    } else if a.0 == TokenKind::String {
        p.shape == ProtoShape::Source && p.message_name@.len() == 0 && p.body@ == encode_utf8(a.1)
    } else if a.0 == TokenKind::Bytes {
        p.shape == ProtoShape::Descriptor && p.message_name@.len() == 0 && p.body@
            == base64_decode_spec(encode_utf8(a.1))
    } else {
        false
    }
}

/// Whether `d` is exactly the `@<name>` directive at `pos` on line `line`
/// whose prefixes are read from offset `i`; its comments are not part of
/// it.
#[verifier::opaque]
pub open spec fn directive_fields(
    s: Seq<u8>,
    i: int,
    line: usize,
    pos: Position,
    name: Seq<char>,
    d: Directive,
) -> bool {
    let run = prefix_run(s, i, line);
    let stop = sig(s, run.1);
    &&& d.pos == pos
    &&& d.name@ == name
    &&& string_views(d.prefixes@) == run.0
    &&& d.message_type@ == if run.0.len() == 1 {
        run.0[0]
    } else {
        Seq::<char>::empty()
    }
    &&& if stop.0.0 == TokenKind::LBrace && position_at(s, stop.1).line == line {
        match match_close(s, stop.0.2, 1, 123, 125) {
            Ok(Some(j)) => d.has_body && d.body@ == s.subrange(stop.0.2, j),
            _ => false,
        }
    } else {
        !d.has_body && d.body@.len() == 0
    }
}

/// The directives at the head of a document read from offset `i`, when
/// `dirs`, `dss`, `tbls` and `prs` are exactly the `@<name>`, `@dataset`,
/// `@table` and `@proto` directives still to read there, in order, and
/// `ty` the type a `@type` gave so far: the offset the first token after
/// them is read from and the type then.
#[verifier::opaque]
pub open spec fn header_tree(
    s: Seq<u8>,
    i: int,
    typed: bool,
    tabled: bool,
    datasetted: bool,
    ty: Seq<char>,
    dirs: Seq<Directive>,
    dss: Seq<DatasetDirective>,
    tbls: Seq<DatasetDirective>,
    prs: Seq<ProtoDirective>,
    lim: Limits,
) -> Option<(int, Seq<char>)>
    decreases s.len() - i,
{
    let t = sig(s, i);
    let pos = position_at(s, t.1);
    match header_step(s, i, typed, tabled, datasetted, lim) {
        None => None,
        Some(None) => if dirs.len() == 0 && dss.len() == 0 && tbls.len() == 0 && prs.len() == 0 {
            Some((i, ty))
        } else {
            None
        },
        Some(Some((j, a, b, c))) => if !(i < j <= s.len()) {
            None
        } else if t.0.0 == TokenKind::AtType {
            header_tree(s, j, a, b, c, sig(s, t.0.2).0.1, dirs, dss, tbls, prs, lim)
        } else if t.0.0 == TokenKind::AtDataset {
            if dss.len() > 0 && dataset_tree(s, t.0.2, true, lim, pos, dss[0]) {
                header_tree(s, j, a, b, c, ty, dirs, dss.drop_first(), tbls, prs, lim)
            } else {
                None
            }
        } else if t.0.0 == TokenKind::AtProto {
            if prs.len() > 0 && proto_fields(s, t.0.2, pos, prs[0]) {
                header_tree(s, j, a, b, c, ty, dirs, dss, tbls, prs.drop_first(), lim)
            } else {
                None
            }
        } else if directive_name_of(t.0.1) == Some("table"@) {
            if tbls.len() > 0 && dataset_tree(s, t.0.2, false, lim, pos, tbls[0]) {
                header_tree(s, j, a, b, c, ty, dirs, dss, tbls.drop_first(), prs, lim)
            } else {
                None
            }
        } else {
            if dirs.len() > 0 && directive_fields(
                s,
                t.0.2,
                pos.line,
                pos,
                directive_name_of(t.0.1)->Some_0,
                dirs[0],
            ) {
                header_tree(s, j, a, b, c, ty, dirs.drop_first(), dss, tbls, prs, lim)
            } else {
                None
            }
        },
    }
}

/// Whether the document's `@type`, `@table` and `@dataset` are those its
/// head reads as.
pub open spec fn head_flags(s: Seq<u8>, lim: Limits, doc: Document) -> bool {
    header_run(s, 0, false, false, false, lim) matches Some((_, a, b, c)) && a == (doc.type_url@.len()
        > 0) && b == (doc.tables@.len() > 0) && c == (doc.datasets@.len() > 0)
}

/// Whether `doc` is exactly the document `s` reads as under `lim`: its
/// directives, its type and its entries; comments and the offset of the
/// body are not part of it.
pub open spec fn document_tree(s: Seq<u8>, lim: Limits, doc: Document) -> bool {
    match header_tree(
        s,
        0,
        false,
        false,
        false,
        Seq::<char>::empty(),
        doc.directives@,
        doc.datasets@,
        doc.tables@,
        doc.protos@,
        lim,
    ) {
        Some((i, ty)) => doc.type_url@ == ty && entries_tree(
            s,
            sig(s, i),
            lim.max_nesting_depth as int,
            lim,
            doc.entries@,
        ),
        None => false,
    }
}

/// `after` is `before` with the directive that starts at the token read
/// from offset `i` added, as [`header_tree`] reads it.
#[verifier::opaque]
pub open spec fn head_added(s: Seq<u8>, i: int, lim: Limits, before: Document, after: Document) -> bool {
    let t = sig(s, i);
    let pos = position_at(s, t.1);
    if t.0.0 == TokenKind::AtType {
        &&& after.type_url@ == sig(s, t.0.2).0.1
        &&& after.directives == before.directives
        &&& after.datasets == before.datasets
        &&& after.tables == before.tables
        &&& after.protos == before.protos
    } else if t.0.0 == TokenKind::AtDataset {
        &&& after.type_url == before.type_url
        &&& after.directives == before.directives
        &&& after.datasets@.len() == before.datasets@.len() + 1
        &&& after.datasets@.drop_last() == before.datasets@
        &&& dataset_tree(s, t.0.2, true, lim, pos, after.datasets@.last())
        &&& after.tables == before.tables
        &&& after.protos == before.protos
    } else if t.0.0 == TokenKind::AtProto {
        &&& after.type_url == before.type_url
        &&& after.directives == before.directives
        &&& after.datasets == before.datasets
        &&& after.tables == before.tables
        &&& after.protos@.len() == before.protos@.len() + 1
        &&& after.protos@.drop_last() == before.protos@
        &&& proto_fields(s, t.0.2, pos, after.protos@.last())
    } else if directive_name_of(t.0.1) == Some("table"@) {
        &&& after.type_url == before.type_url
        &&& after.directives == before.directives
        &&& after.datasets == before.datasets
        &&& after.tables@.len() == before.tables@.len() + 1
        &&& after.tables@.drop_last() == before.tables@
        &&& dataset_tree(s, t.0.2, false, lim, pos, after.tables@.last())
        &&& after.protos == before.protos
    } else {
        &&& after.type_url == before.type_url
        &&& after.directives@.len() == before.directives@.len() + 1
        &&& after.directives@.drop_last() == before.directives@
        &&& directive_fields(
            s,
            t.0.2,
            pos.line,
            pos,
            directive_name_of(t.0.1)->Some_0,
            after.directives@.last(),
        )
        &&& after.datasets == before.datasets
        &&& after.tables == before.tables
        &&& after.protos == before.protos
    }
}

/// The directives added since `before`, in order.
pub open spec fn added<T>(before: Seq<T>, after: Seq<T>) -> Seq<T> {
    after.subrange(before.len() as int, after.len() as int)
}

/// One directive read at the head of a document, as [`head_added`] adds
/// it, is one step of [`header_tree`], whatever remains to read after it.
#[verifier::rlimit(100)]
proof fn lemma_header_tree_step(
    s: Seq<u8>,
    i0: int,
    i: int,
    f0: bool,
    f1: bool,
    f2: bool,
    lim: Limits,
    before: Document,
    after: Document,
    na: bool,
    nb: bool,
    nc: bool,
)
    requires
        na == (after.type_url@.len() > 0),
        nb == (after.tables@.len() > 0),
        nc == (after.datasets@.len() > 0),
        header_step(s, i0, f0, f1, f2, lim) == Some(
            Some(
                (
                    i,
                    after.type_url@.len() > 0,
                    after.tables@.len() > 0,
                    after.datasets@.len() > 0,
                ),
            ),
        ),
        i0 < i <= s.len(),
        head_added(s, i0, lim, before, after),
    ensures
        forall|
            a: Seq<Directive>,
            bb: Seq<DatasetDirective>,
            c: Seq<DatasetDirective>,
            d: Seq<ProtoDirective>,
        |
            #![trigger header_tree(s, i, na, nb, nc, after.type_url@, a, bb, c, d, lim)]
            header_tree(
                s,
                i0,
                f0,
                f1,
                f2,
                before.type_url@,
                added(before.directives@, after.directives@) + a,
                added(before.datasets@, after.datasets@) + bb,
                added(before.tables@, after.tables@) + c,
                added(before.protos@, after.protos@) + d,
                lim,
            ) == header_tree(
                s,
                i,
                after.type_url@.len() > 0,
                after.tables@.len() > 0,
                after.datasets@.len() > 0,
                after.type_url@,
                a,
                bb,
                c,
                d,
                lim,
            ),
{
    let t = sig(s, i0);
    assert forall|
        a: Seq<Directive>,
        bb: Seq<DatasetDirective>,
        c: Seq<DatasetDirective>,
        d: Seq<ProtoDirective>,
    |
        #![trigger header_tree(s, i, na, nb, nc, after.type_url@, a, bb, c, d, lim)]
        header_tree(
            s,
            i0,
            f0,
            f1,
            f2,
            before.type_url@,
            added(before.directives@, after.directives@) + a,
            added(before.datasets@, after.datasets@) + bb,
            added(before.tables@, after.tables@) + c,
            added(before.protos@, after.protos@) + d,
            lim,
        ) == header_tree(
            s,
            i,
            after.type_url@.len() > 0,
            after.tables@.len() > 0,
            after.datasets@.len() > 0,
            after.type_url@,
            a,
            bb,
            c,
            d,
            lim,
        ) by {
        reveal(header_tree);
        reveal(head_added);
        let ad = added(before.directives@, after.directives@) + a;
        let ads = added(before.datasets@, after.datasets@) + bb;
        let at = added(before.tables@, after.tables@) + c;
        let ap = added(before.protos@, after.protos@) + d;
        if t.0.0 == TokenKind::AtType {
            assert(ad =~= a);
            assert(ads =~= bb);
            assert(at =~= c);
            assert(ap =~= d);
        } else if t.0.0 == TokenKind::AtDataset {
            assert(ad =~= a);
            assert(at =~= c);
            assert(ap =~= d);
            assert(ads[0] == after.datasets@.last());
            assert(ads.drop_first() =~= bb);
        } else if t.0.0 == TokenKind::AtProto {
            assert(ad =~= a);
            assert(ads =~= bb);
            assert(at =~= c);
            assert(ap[0] == after.protos@.last());
            assert(ap.drop_first() =~= d);
        } else if directive_name_of(t.0.1) == Some("table"@) {
            assert(ad =~= a);
            assert(ads =~= bb);
            assert(ap =~= d);
            assert(at[0] == after.tables@.last());
            assert(at.drop_first() =~= c);
        } else {
            assert(ads =~= bb);
            assert(at =~= c);
            assert(ap =~= d);
            assert(ad[0] == after.directives@.last());
            assert(ad.drop_first() =~= a);
        }
    }
}

/// The head of a document read so far, with one more directive added.
proof fn lemma_header_loop_step(
    s: Seq<u8>,
    i0: int,
    i: int,
    f0: bool,
    f1: bool,
    f2: bool,
    lim: Limits,
    before: Document,
    after: Document,
    na: bool,
    nb: bool,
    nc: bool,
)
    requires
        na == (after.type_url@.len() > 0),
        nb == (after.tables@.len() > 0),
        nc == (after.datasets@.len() > 0),
        header_step(s, i0, f0, f1, f2, lim) == Some(Some((i, na, nb, nc))),
        i0 < i <= s.len(),
        head_added(s, i0, lim, before, after),
        forall|
            a: Seq<Directive>,
            bb: Seq<DatasetDirective>,
            c: Seq<DatasetDirective>,
            d: Seq<ProtoDirective>,
        | #[trigger]
            header_tree(
                s,
                0,
                false,
                false,
                false,
                Seq::<char>::empty(),
                before.directives@ + a,
                before.datasets@ + bb,
                before.tables@ + c,
                before.protos@ + d,
                lim,
            ) == header_tree(s, i0, f0, f1, f2, before.type_url@, a, bb, c, d, lim),
    ensures
        forall|
            a: Seq<Directive>,
            bb: Seq<DatasetDirective>,
            c: Seq<DatasetDirective>,
            d: Seq<ProtoDirective>,
        | #[trigger]
            header_tree(
                s,
                0,
                false,
                false,
                false,
                Seq::<char>::empty(),
                after.directives@ + a,
                after.datasets@ + bb,
                after.tables@ + c,
                after.protos@ + d,
                lim,
            ) == header_tree(s, i, na, nb, nc, after.type_url@, a, bb, c, d, lim),
{
    lemma_header_tree_step(s, i0, i, f0, f1, f2, lim, before, after, na, nb, nc);
    reveal(head_added);
    assert forall|
        a: Seq<Directive>,
        bb: Seq<DatasetDirective>,
        c: Seq<DatasetDirective>,
        d: Seq<ProtoDirective>,
    | #[trigger]
        header_tree(
            s,
            0,
            false,
            false,
            false,
            Seq::<char>::empty(),
            after.directives@ + a,
            after.datasets@ + bb,
            after.tables@ + c,
            after.protos@ + d,
            lim,
        ) == header_tree(s, i, na, nb, nc, after.type_url@, a, bb, c, d, lim) by {
        let xa = added(before.directives@, after.directives@) + a;
        let xb = added(before.datasets@, after.datasets@) + bb;
        let xc = added(before.tables@, after.tables@) + c;
        let xd = added(before.protos@, after.protos@) + d;
        assert(after.directives@ + a =~= before.directives@ + xa);
        assert(after.datasets@ + bb =~= before.datasets@ + xb);
        assert(after.tables@ + c =~= before.tables@ + xc);
        assert(after.protos@ + d =~= before.protos@ + xd);
        assert(header_tree(
            s,
            0,
            false,
            false,
            false,
            Seq::<char>::empty(),
            before.directives@ + xa,
            before.datasets@ + xb,
            before.tables@ + xc,
            before.protos@ + xd,
            lim,
        ) == header_tree(s, i0, f0, f1, f2, before.type_url@, xa, xb, xc, xd, lim));
    }
}

/// The texts of the strings.
pub open spec fn string_views(v: Seq<String>) -> Seq<Seq<char>> {
    v.map_values(|x: String| x@)
}

/// Whether a value token is one the parser takes by itself: a scalar, or a
/// bytes literal within the limit.
pub open spec fn plain_value(t: Lexed, lim: Limits) -> bool {
    scalar_kind(t.0) || (t.0 == TokenKind::Bytes && base64_decode_spec(encode_utf8(t.1)).len()
        <= lim.max_bytes_literal_length)
}

/// A value whose first token is `t`, with `d` more levels of `{` / `[`
/// allowed: the token after it, or `None` when it does not read.
pub open spec fn value_run(s: Seq<u8>, t: Lexed, d: int, lim: Limits) -> Option<Lexed>
    decreases d, s.len() - t.2, 1int,
{
    if plain_value(t, lim) {
        Some(sig(s, t.2).0)
    } else if t.0 == TokenKind::LBracket {
        list_run(s, t, d, lim)
    } else if t.0 == TokenKind::LBrace {
        if d <= 0 {
            None
        } else {
            body_items(s, sig(s, t.2).0, d - 1, lim)
        }
    } else {
        None
    }
}

/// A list whose `[` is `t`: the token after its `]`.
pub open spec fn list_run(s: Seq<u8>, t: Lexed, d: int, lim: Limits) -> Option<Lexed>
    decreases d, s.len() - t.2, 0int,
{
    if d <= 0 {
        None
    } else {
        items_run(s, sig(s, t.2).0, d - 1, lim)
    }
}

/// The elements of a list from token `u` on, each followed by an optional
/// `,`, up to and including the `]`: the token after it.
pub open spec fn items_run(s: Seq<u8>, u: Lexed, d: int, lim: Limits) -> Option<Lexed>
    decreases d, s.len() - u.2, 2int,
{
    if u.0 == TokenKind::RBracket {
        Some(sig(s, u.2).0)
    } else if u.0 == TokenKind::Eof {
        None
    } else {
        match value_run(s, u, d, lim) {
            None => None,
            Some(w) => if !(u.2 < w.2 <= s.len()) {
                None
            } else if w.0 == TokenKind::Comma {
                let x = sig(s, w.2).0;
                if w.2 < x.2 <= s.len() {
                    items_run(s, x, d, lim)
                } else {
                    None
                }
            } else {
                items_run(s, w, d, lim)
            },
        }
    }
}

/// The entries of a block from token `u` on, up to and including the `}`:
/// the token after it.
pub open spec fn body_items(s: Seq<u8>, u: Lexed, d: int, lim: Limits) -> Option<Lexed>
    decreases d, s.len() - u.2, 2int,
{
    if u.0 == TokenKind::RBrace {
        Some(sig(s, u.2).0)
    } else if u.0 == TokenKind::Eof {
        None
    } else {
        match entry_run(s, u, d, true, lim) {
            None => None,
            Some(w) => if u.2 < w.2 <= s.len() {
                body_items(s, w, d, lim)
            } else {
                None
            },
        }
    }
}

/// An entry whose key is `t`, the `:` form only where `allow_map_entry`:
/// the token after it.
pub open spec fn entry_run(s: Seq<u8>, t: Lexed, d: int, allow_map_entry: bool, lim: Limits) -> Option<
    Lexed,
>
    decreases d, s.len() - t.2, 1int,
{
    let named = t.0 == TokenKind::Ident || t.0 == TokenKind::String;
    let n = sig(s, t.2).0;
    let v = sig(s, n.2).0;
    if !(named || t.0 == TokenKind::Int || t.0 == TokenKind::Bool) {
        None
    } else if n.0 == TokenKind::Equals || n.0 == TokenKind::Colon {
        if (n.0 == TokenKind::Equals && !named) || (n.0 == TokenKind::Colon && !allow_map_entry) {
            None
        } else if t.2 < v.2 <= s.len() {
            value_run(s, v, d, lim)
        } else {
            None
        }
    } else if n.0 == TokenKind::LBrace {
        if !named || d <= 0 {
            None
        } else {
            body_items(s, v, d - 1, lim)
        }
    } else {
        None
    }
}

/// The token after a value whose first token is `t` (with the offset it
/// starts at), when `v` is exactly the value the tokens from `t` on read as
/// with `d` more levels of `{` / `[` allowed; `None` otherwise. Comments are
/// not part of it.
pub open spec fn value_tree(s: Seq<u8>, t: (Lexed, int), d: int, lim: Limits, v: Value) -> Option<
    (Lexed, int),
>
    decreases d, s.len() - t.0.2, 1int,
{
    let pos = position_at(s, t.1);
    let k = t.0.0;
    let text = t.0.1;
    let after = sig(s, t.0.2);
    let ok = match v {
        Value::String(x) => k == TokenKind::String && x.pos == pos && x.value@ == text,
        Value::Int(x) => k == TokenKind::Int && x.pos == pos && x.raw@ == text,
        Value::Float(x) => k == TokenKind::Float && x.pos == pos && x.raw@ == text,
        Value::Bool(x) => k == TokenKind::Bool && x.pos == pos && x.value == (text == "true"@),
        Value::Bytes(x) => k == TokenKind::Bytes && plain_value(t.0, lim) && x.pos == pos
            && x.value@ == base64_decode_spec(encode_utf8(text)),
        Value::Timestamp(x) => k == TokenKind::Timestamp && x.pos == pos && x.raw@ == text,
        Value::Duration(x) => k == TokenKind::Duration && x.pos == pos && x.raw@ == text,
        Value::Null(x) => k == TokenKind::Null && x.pos == pos,
        Value::Ident(x) => k == TokenKind::Ident && x.pos == pos && x.name@ == text,
        _ => false,
    };
    if ok {
        Some(after)
    } else if d <= 0 {
        None
    } else {
        match v {
            Value::List(l) => if k == TokenKind::LBracket && l.pos == pos {
                items_tree(s, after, d - 1, lim, l.elements@)
            } else {
                None
            },
            Value::Block(b) => if k == TokenKind::LBrace && b.pos == pos {
                body_tree(s, after, d - 1, lim, b.entries@)
            } else {
                None
            },
            _ => None,
        }
    }
}

/// The token after a list's `]`, the list's elements read from token `u`
/// on being exactly `es`.
pub open spec fn items_tree(s: Seq<u8>, u: (Lexed, int), d: int, lim: Limits, es: Seq<Value>) -> Option<
    (Lexed, int),
>
    decreases d, s.len() - u.0.2, 2int,
{
    if u.0.0 == TokenKind::RBracket {
        if es.len() == 0 {
            Some(sig(s, u.0.2))
        } else {
            None
        }
    } else if u.0.0 == TokenKind::Eof || es.len() == 0 {
        None
    } else {
        match value_tree(s, u, d, lim, es[0]) {
            None => None,
            Some(w) => if !(u.0.2 < w.0.2 <= s.len()) {
                None
            } else if w.0.0 == TokenKind::Comma {
                let x = sig(s, w.0.2);
                if w.0.2 < x.0.2 <= s.len() {
                    items_tree(s, x, d, lim, es.drop_first())
                } else {
                    None
                }
            } else {
                items_tree(s, w, d, lim, es.drop_first())
            },
        }
    }
}

/// The token after a block's `}`, the block's entries read from token `u`
/// on being exactly `es`.
pub open spec fn body_tree(s: Seq<u8>, u: (Lexed, int), d: int, lim: Limits, es: Seq<Entry>) -> Option<
    (Lexed, int),
>
    decreases d, s.len() - u.0.2, 2int,
{
    if u.0.0 == TokenKind::RBrace {
        if es.len() == 0 {
            Some(sig(s, u.0.2))
        } else {
            None
        }
    } else if u.0.0 == TokenKind::Eof || es.len() == 0 {
        None
    } else {
        match entry_tree(s, u, d, true, lim, es[0]) {
            None => None,
            Some(w) => if u.0.2 < w.0.2 <= s.len() {
                body_tree(s, w, d, lim, es.drop_first())
            } else {
                None
            },
        }
    }
}

/// The token after an entry whose key is `t`, when `e` is exactly the
/// entry the tokens from `t` on read as; comments are not part of it.
pub open spec fn entry_tree(
    s: Seq<u8>,
    t: (Lexed, int),
    d: int,
    allow_map_entry: bool,
    lim: Limits,
    e: Entry,
) -> Option<(Lexed, int)>
    decreases d, s.len() - t.0.2, 1int,
{
    let pos = position_at(s, t.1);
    let k = t.0.0;
    let named = k == TokenKind::Ident || k == TokenKind::String;
    let n = sig(s, t.0.2).0;
    let v = sig(s, n.2);
    if !(named || k == TokenKind::Int || k == TokenKind::Bool) || !(t.0.2 < v.0.2 <= s.len()) {
        None
    } else {
        match e {
            Entry::Assignment(a) => if n.0 == TokenKind::Equals && named && a.pos == pos && a.key@
                == t.0.1 && a.key_quoted == (k == TokenKind::String) && a.trailing_comment@.len()
                == 0 {
                value_tree(s, v, d, lim, a.value)
            } else {
                None
            },
            Entry::MapEntry(m) => if n.0 == TokenKind::Colon && allow_map_entry && m.pos == pos
                && m.key@ == t.0.1 && m.trailing_comment@.len() == 0 {
                value_tree(s, v, d, lim, m.value)
            } else {
                None
            },
            Entry::Block(b) => if n.0 == TokenKind::LBrace && named && d > 0 && b.pos == pos
                && b.name@ == t.0.1 && b.name_quoted == (k == TokenKind::String) {
                body_tree(s, v, d - 1, lim, b.entries@)
            } else {
                None
            },
        }
    }
}

/// Whether `es` is exactly what the top-level entries of a document read
/// as from token `t` to the end of the input.
pub open spec fn entries_tree(s: Seq<u8>, t: (Lexed, int), d: int, lim: Limits, es: Seq<Entry>) -> bool
    decreases s.len() - t.0.2,
{
    if t.0.0 == TokenKind::Eof {
        es.len() == 0
    } else if es.len() == 0 {
        false
    } else {
        match entry_tree(s, t, d, false, lim, es[0]) {
            Some(w) => if w.0.0 == TokenKind::Eof {
                es.len() == 1
            } else if t.0.2 < w.0.2 <= s.len() {
                entries_tree(s, w, d, lim, es.drop_first())
            } else {
                false
            },
            None => false,
        }
    }
}

/// Whether `c` is exactly the dataset cell read from offset `i`: none for a
/// `,` or `)`, else the value of a cell token.
pub open spec fn cell_ok(s: Seq<u8>, i: int, lim: Limits, c: Option<Value>) -> bool {
    let t = sig(s, i);
    match c {
        None => t.0.0 == TokenKind::Comma || t.0.0 == TokenKind::RParen,
        Some(v) => cell_token(t.0, lim) && value_tree(s, t, 0, lim, v) == Some(sig(s, t.0.2)),
    }
}

/// Whether `cs` is exactly the cells of a dataset row read from offset `i`
/// up to and including its `)`.
pub open spec fn cells_tree(s: Seq<u8>, i: int, lim: Limits, cs: Seq<Option<Value>>) -> bool
    decreases s.len() - i,
{
    let e = cell_end(s, i, lim);
    if e < 0 || cs.len() == 0 || !cell_ok(s, i, lim, cs[0]) {
        false
    } else {
        let sep = sig(s, e).0;
        if sep.0 == TokenKind::RParen {
            cs.len() == 1
        } else if sep.0 == TokenKind::Comma && i < sep.2 <= s.len() {
            cells_tree(s, sep.2, lim, cs.drop_first())
        } else {
            false
        }
    }
}

/// Whether `rows` is exactly the rows of `ncols` cells read from offset `i`
/// while each starts with `(`.
pub open spec fn rows_tree(s: Seq<u8>, i: int, ncols: nat, lim: Limits, rows: Seq<DatasetRow>) -> bool
    decreases s.len() - i,
{
    let t = sig(s, i);
    if t.0.0 != TokenKind::LParen {
        rows.len() == 0
    } else {
        match row_cells(s, t.0.2, lim) {
            Some((n, e)) => n == ncols && i < e <= s.len() && rows.len() > 0 && rows[0].pos
                == position_at(s, t.1) && cells_tree(s, t.0.2, lim, rows[0].cells@) && rows_tree(
                s,
                e,
                ncols,
                lim,
                rows.drop_first(),
            ),
            None => false,
        }
    }
}

/// Whether `d` is exactly the `@table` / `@dataset` directive at `pos`
/// read from offset `i` (just past its directive token); its comments are
/// not part of it.
#[verifier::opaque]
pub open spec fn dataset_tree(
    s: Seq<u8>,
    i: int,
    type_optional: bool,
    lim: Limits,
    pos: Position,
    d: DatasetDirective,
) -> bool {
    let t1 = sig(s, i).0;
    let j = if t1.0 == TokenKind::Ident {
        t1.2
    } else {
        i
    };
    let t2 = sig(s, j).0;
    match dataset_run(s, i, type_optional, lim) {
        Some((ty, cols, n, q)) => {
            let e = column_run(s, t2.2)->Some_0.1;
            &&& d.pos == pos
            &&& d.message_type@ == ty
            &&& string_views(d.columns@) == cols
            &&& rows_tree(s, e, cols.len(), lim, d.rows@)
        },
        None => false,
    }
}

/// A token that is a whole value by itself, and one that no limit refuses.
pub open spec fn scalar_kind(k: TokenKind) -> bool {
    k == TokenKind::String || k == TokenKind::Int || k == TokenKind::Float || k == TokenKind::Bool
        || k == TokenKind::Timestamp || k == TokenKind::Duration || k == TokenKind::Null || k
        == TokenKind::Ident
}

/// The kind of the token the parser reads next from offset `i`.
pub open spec fn sig_kind(s: Seq<u8>, i: int) -> TokenKind {
    sig(s, i).0.0
}

// ---------------------------------------------------------------- messages
fn cat2(a: &str, b: &str) -> (r: String)
    ensures
        r@ == a@ + b@,
{
    let mut r = owned(a);
    push_str(&mut r, b);
    r
}

fn cat3(a: &str, b: &str, c: &str) -> (r: String)
    ensures
        r@ == a@ + b@ + c@,
{
    let mut r = owned(a);
    push_str(&mut r, b);
    push_str(&mut r, c);
    r
}

fn cat4(a: &str, b: &str, c: &str, d: &str) -> (r: String)
    ensures
        r@ == a@ + b@ + c@ + d@,
{
    let mut r = owned(a);
    push_str(&mut r, b);
    push_str(&mut r, c);
    push_str(&mut r, d);
    r
}

/// `"<v>"`, the value as error messages quote it.
fn quoted(v: &str) -> (r: String)
    ensures
        r@ == "\""@ + v@ + "\""@,
{
    cat3("\"", v, "\"")
}

fn err_at(pos: Position, msg: String) -> (r: Result<(), PxfError>)
    ensures
        r matches Err(e) && e.pos == pos && e.msg == msg,
{
    Err(PxfError::new(pos, msg))
}

/// Whether the text holds a `.`.
fn has_dot(s: &String) -> (r: bool)
    ensures
        r == s@.contains('.'),
{
    let t = crate::text::chars_of(s.as_str());
    let mut k: usize = 0;
    while k < t.len()
        invariant
            k <= t@.len(),
            t@ == s@,
            forall|x: int| 0 <= x < k ==> t@[x] != '.',
        decreases t@.len() - k,
    {
        if t[k] == '.' {
            return true;
        }
        k = k + 1;
    }
    false
}

// ---------------------------------------------------------------- the parser
struct Parser<'a> {
    lex: Lexer<'a>,
    current: Token,
    /// Offset where `current` starts.
    cur_start: Ghost<int>,
    /// Offset just past `current`.
    cur_end: usize,
    /// Offset just past the token before `current`.
    prev_end: usize,
    pending: Vec<Comment>,
    depth: usize,
    limits: Limits,
}

impl<'a> Parser<'a> {
    spec fn inv(&self) -> bool {
        &&& self.depth <= self.limits.max_nesting_depth
        &&& self.lex.offset() <= self.lex.source().len() < usize::MAX
        &&& self.cur_end == self.lex.offset()
        &&& self.prev_end <= self.lex.offset()
        &&& (self.current.kind == TokenKind::Eof ==> self.lex.offset() == self.lex.source().len())
        &&& self.current.kind != TokenKind::Newline
        &&& self.current.kind != TokenKind::Comment
        &&& self.current.pos == position_at(self.lex.source(), self.cur_start@)
    }

    /// Decreases with every token consumed.
    spec fn measure(&self) -> int {
        2 * (self.lex.source().len() - self.lex.offset()) + if self.current.kind
            == TokenKind::Eof {
            0int
        } else {
            1int
        }
    }

    /// `current` is the token read from offset `i`, whole, and the lexer
    /// stands just past it.
    spec fn reads(&self, i: int) -> bool {
        let (r, st) = sig(self.lex.source(), i);
        &&& lexed_as(self.current, r)
        &&& self.current.pos == position_at(self.lex.source(), st)
        &&& self.cur_end == r.2
        &&& self.cur_start@ == st
    }

    /// `current` with the offset it starts at, as [`sig`] gives a token.
    spec fn tok(&self) -> (Lexed, int) {
        (self.cur(), self.cur_start@)
    }

    /// `current` as the lexer yields it, with the offset just past it.
    spec fn cur(&self) -> Lexed {
        (self.current.kind, self.current.value@, self.cur_end as int)
    }

    /// How many more levels of `{` / `[` the limit allows.
    spec fn room(&self) -> int {
        self.limits.max_nesting_depth - self.depth
    }

    /// The kind of the token after `current`.
    spec fn next_kind(&self) -> TokenKind {
        sig_kind(self.lex.source(), self.cur_end as int)
    }

    /// The parts of the state that only enter and leave change.
    spec fn same_frame(&self, other: &Self) -> bool {
        &&& self.lex.source() == other.lex.source()
        &&& self.depth == other.depth
        &&& self.limits == other.limits
    }

    fn new(input: &'a str, limits: Limits) -> (p: Parser<'a>)
        requires
            input.spec_bytes().len() < usize::MAX,
        ensures
            p.inv(),
            p.depth == 0,
            p.limits == limits,
            p.lex.source() == input.spec_bytes(),
            p.reads(0),
            p.current.kind != TokenKind::Eof ==> p.cur_end > 0,
    {
        let lex = Lexer::new(input);
        let mut p = Parser {
            lex,
            current: Token::new(TokenKind::Eof, String::new(), Position::new(1, 1)),
            cur_start: Ghost(0),
            cur_end: 0,
            prev_end: 0,
            pending: Vec::new(),
            depth: 0,
            limits,
        };
        p.next();
        p
    }

    /// Reads the next token that is not a newline or a comment into
    /// `current`; comments go to the pending list.
    fn next(&mut self)
        requires
            old(self).lex.offset() <= old(self).lex.source().len() < usize::MAX,
            old(self).cur_end == old(self).lex.offset(),
            old(self).prev_end <= old(self).lex.offset(),
            old(self).depth <= old(self).limits.max_nesting_depth,
        ensures
            final(self).inv(),
            final(self).same_frame(old(self)),
            final(self).lex.offset() >= old(self).lex.offset(),
            final(self).current.kind != TokenKind::Eof ==> final(self).lex.offset() > old(
                self,
            ).lex.offset(),
            final(self).prev_end == old(self).prev_end,
            final(self).reads(old(self).lex.offset()),
    {
        loop
            invariant
                sig(self.lex.source(), self.lex.offset()) == sig(
                    old(self).lex.source(),
                    old(self).lex.offset(),
                ),
                self.lex.source() == old(self).lex.source(),
                self.depth == old(self).depth,
                self.limits == old(self).limits,
                self.depth <= self.limits.max_nesting_depth,
                self.prev_end == old(self).prev_end,
                self.lex.offset() >= old(self).lex.offset(),
                self.prev_end <= self.lex.offset(),
                self.lex.offset() <= self.lex.source().len() < usize::MAX,
            decreases self.lex.source().len() - self.lex.offset(),
        {
            let ghost ghost_off = self.lex.offset();
            let t = self.lex.next_token();
            self.cur_end = self.lex.byte_offset();
            match t.kind {
                TokenKind::Newline => {},
                TokenKind::Comment => {
                    self.pending.push(Comment { pos: t.pos, text: t.value });
                },
                _ => {
                    self.current = t;
                    self.cur_start = Ghost(scan(self.lex.source(), ghost_off, ByteClass::Space));
                    return ;
                },
            }
        }
    }

    /// Consumes `current`.
    fn advance(&mut self)
        requires
            old(self).inv(),
        ensures
            final(self).inv(),
            final(self).same_frame(old(self)),
            final(self).measure() <= old(self).measure(),
            old(self).current.kind != TokenKind::Eof ==> final(self).measure() < old(
                self,
            ).measure(),
            final(self).prev_end == old(self).cur_end,
            final(self).reads(old(self).cur_end as int),
            final(self).current.kind != TokenKind::Eof ==> final(self).cur_end > old(self).cur_end,
    {
        self.prev_end = self.cur_end;
        self.next();
    }

    fn flush_comments(&mut self) -> (c: Vec<Comment>)
        ensures
            final(self).cur_start == old(self).cur_start,
            c@ == old(self).pending@,
            final(self).pending@.len() == 0,
            final(self).lex == old(self).lex,
            final(self).current == old(self).current,
            final(self).cur_end == old(self).cur_end,
            final(self).prev_end == old(self).prev_end,
            final(self).depth == old(self).depth,
            final(self).limits == old(self).limits,
    {
        let mut out: Vec<Comment> = Vec::new();
        std::mem::swap(&mut out, &mut self.pending);
        out
    }

    /// Takes the text of `current`, leaving it empty.
    fn take_value(&mut self) -> (v: String)
        ensures
            final(self).cur_start == old(self).cur_start,
            v == old(self).current.value,
            final(self).lex == old(self).lex,
            final(self).current.kind == old(self).current.kind,
            final(self).current.pos == old(self).current.pos,
            final(self).cur_end == old(self).cur_end,
            final(self).prev_end == old(self).prev_end,
            final(self).depth == old(self).depth,
            final(self).limits == old(self).limits,
    {
        let mut v = String::new();
        std::mem::swap(&mut v, &mut self.current.value);
        v
    }

    /// `<prefix>, got <kind>`.
    fn got(&self, prefix: &str) -> (m: String)
        ensures
            m@ == prefix@ + ", got "@ + token_kind_name(self.current.kind),
    {
        cat3(prefix, ", got ", self.current.kind.name())
    }

    /// `<prefix>, got <kind> ("<value>")`.
    fn got_value(&self, prefix: &str) -> (m: String)
        ensures
            m@ == prefix@ + ", got "@ + token_kind_name(self.current.kind) + " ("@ + "\""@
                + self.current.value@ + "\""@ + ")"@,
    {
        let mut m = cat3(prefix, ", got ", self.current.kind.name());
        push_str(&mut m, " (");
        let q = quoted(self.current.value.as_str());
        push_str(&mut m, q.as_str());
        push_str(&mut m, ")");
        m
    }

    /// Opens one level of `{` / `[` nesting.
    fn enter(&mut self, pos: Position) -> (r: Result<(), PxfError>)
        requires
            old(self).inv(),
        ensures
            final(self).cur_start == old(self).cur_start,
            final(self).lex == old(self).lex,
            final(self).current == old(self).current,
            final(self).cur_end == old(self).cur_end,
            final(self).prev_end == old(self).prev_end,
            final(self).limits == old(self).limits,
            r is Ok ==> final(self).depth == old(self).depth + 1 && final(self).inv(),
            r is Err ==> final(self).depth == old(self).depth,
            r is Err <==> old(self).depth >= old(self).limits.max_nesting_depth,
            r matches Err(e) ==> e.pos == pos && e.msg@ == depth_error(
                old(self).limits.max_nesting_depth as nat,
            ),
    {
        if self.depth >= self.limits.max_nesting_depth {
            let mut m = owned("nesting depth exceeds MaxNestingDepth (");
            push_decimal(&mut m, self.limits.max_nesting_depth as u64);
            push_str(&mut m, ")");
            return Err(PxfError::new(pos, m));
        }
        self.depth = self.depth + 1;
        Ok(())
    }

    fn parse_value(&mut self) -> (r: Result<Value, PxfError>)
        requires
            old(self).inv(),
        ensures
            final(self).inv(),
            final(self).lex.source() == old(self).lex.source(),
            final(self).limits == old(self).limits,
            r is Ok ==> final(self).depth == old(self).depth,
            r is Ok ==> final(self).measure() < old(self).measure(),
            r matches Ok(v) ==> value_ok(
                v,
                old(self).limits.max_nesting_depth - old(self).depth,
                old(self).limits,
            ),
            r matches Ok(v) ==> (v is List ==> old(self).current.kind == TokenKind::LBracket) && (
            v is Block ==> old(self).current.kind == TokenKind::LBrace),
            ({
                let pos = old(self).current.pos;
                let text = old(self).current.value;
                let after = final(self).reads(old(self).cur_end as int);
                match old(self).current.kind {
                    TokenKind::String => after && r == Ok::<Value, PxfError>(
                        Value::String(StringVal { pos, value: text }),
                    ),
                    TokenKind::Int => after && r == Ok::<Value, PxfError>(
                        Value::Int(IntVal { pos, raw: text }),
                    ),
                    TokenKind::Float => after && r == Ok::<Value, PxfError>(
                        Value::Float(FloatVal { pos, raw: text }),
                    ),
                    TokenKind::Bool => after && r == Ok::<Value, PxfError>(
                        Value::Bool(BoolVal { pos, value: text@ == "true"@ }),
                    ),
                    TokenKind::Timestamp => after && r == Ok::<Value, PxfError>(
                        Value::Timestamp(TimestampVal { pos, raw: text }),
                    ),
                    TokenKind::Duration => after && r == Ok::<Value, PxfError>(
                        Value::Duration(DurationVal { pos, raw: text }),
                    ),
                    TokenKind::Null => after && r == Ok::<Value, PxfError>(Value::Null(NullVal { pos })),
                    TokenKind::Ident => after && r == Ok::<Value, PxfError>(
                        Value::Ident(IdentVal { pos, name: text }),
                    ),
                    TokenKind::Bytes => {
                        let bytes = base64_decode_spec(encode_utf8(text@));
                        if bytes.len() > old(self).limits.max_bytes_literal_length {
                            r matches Err(e) && e.pos == pos && e.msg@ == bytes_limit_error(
                                old(self).limits.max_bytes_literal_length as nat,
                            )
                        } else {
                            after && (r matches Ok(Value::Bytes(b)) && b.pos == pos && b.value@ == bytes)
                        }
                    },
                    TokenKind::LBracket => old(self).depth >= old(self).limits.max_nesting_depth
                        ==> (r matches Err(e) && e.pos == pos && e.msg@ == depth_error(
                        old(self).limits.max_nesting_depth as nat,
                    )),
                    TokenKind::LBrace => old(self).depth >= old(self).limits.max_nesting_depth
                        ==> (r matches Err(e) && e.pos == pos && e.msg@ == depth_error(
                        old(self).limits.max_nesting_depth as nat,
                    )),
                    _ => r matches Err(e) && e.pos == pos && e.msg@ == "expected value"@ + ", got "@
                        + token_kind_name(old(self).current.kind) + " ("@ + "\""@ + text@ + "\""@
                        + ")"@,
                }
            }),
            r matches Ok(v) ==> value_tree(
                old(self).lex.source(),
                old(self).tok(),
                old(self).room(),
                old(self).limits,
                v,
            ) == Some(final(self).tok()),
            match value_run(old(self).lex.source(), old(self).cur(), old(self).room(), old(self).limits) {
                Some(w) => r is Ok && final(self).cur() == w,
                None => r is Err,
            },
        decreases old(self).limits.max_nesting_depth - old(self).depth, 3int,
    {
        let pos = self.current.pos;
        match self.current.kind {
            TokenKind::String => {
                let value = self.take_value();
                self.advance();
                Ok(Value::String(StringVal { pos, value }))
            },
            TokenKind::Int => {
                let raw = self.take_value();
                self.advance();
                Ok(Value::Int(IntVal { pos, raw }))
            },
            TokenKind::Float => {
                let raw = self.take_value();
                self.advance();
                Ok(Value::Float(FloatVal { pos, raw }))
            },
            TokenKind::Bool => {
                let value = str_is(&self.current.value, "true");
                self.advance();
                Ok(Value::Bool(BoolVal { pos, value }))
            },
            TokenKind::Bytes => {
                let value = decode_base64(self.current.value.as_str().as_bytes());
                if value.len() > self.limits.max_bytes_literal_length {
                    let mut m = owned("bytes literal decodes to more than MaxBytesLiteralLength=");
                    push_decimal(&mut m, self.limits.max_bytes_literal_length as u64);
                    push_str(&mut m, " bytes");
                    return Err(PxfError::new(pos, m));
                }
                self.advance();
                Ok(Value::Bytes(BytesVal { pos, value }))
            },
            TokenKind::Timestamp => {
                let raw = self.take_value();
                self.advance();
                Ok(Value::Timestamp(TimestampVal { pos, raw }))
            },
            TokenKind::Duration => {
                let raw = self.take_value();
                self.advance();
                Ok(Value::Duration(DurationVal { pos, raw }))
            },
            TokenKind::Null => {
                self.advance();
                Ok(Value::Null(NullVal { pos }))
            },
            TokenKind::Ident => {
                let name = self.take_value();
                self.advance();
                Ok(Value::Ident(IdentVal { pos, name }))
            },
            TokenKind::LBracket => self.parse_list(),
            TokenKind::LBrace => self.parse_block_val(),
            _ => Err(PxfError::new(pos, self.got_value("expected value"))),
        }
    }

    fn parse_list(&mut self) -> (r: Result<Value, PxfError>)
        requires
            old(self).inv(),
            old(self).current.kind == TokenKind::LBracket,
        ensures
            final(self).inv(),
            final(self).lex.source() == old(self).lex.source(),
            final(self).limits == old(self).limits,
            r is Ok ==> final(self).depth == old(self).depth,
            r is Ok ==> final(self).measure() < old(self).measure(),
            r matches Ok(v) ==> value_ok(
                v,
                old(self).limits.max_nesting_depth - old(self).depth,
                old(self).limits,
            ),
            r matches Ok(v) ==> v is List,
            old(self).depth >= old(self).limits.max_nesting_depth ==> (r matches Err(e) && e.pos
                == old(self).current.pos && e.msg@ == depth_error(
                old(self).limits.max_nesting_depth as nat,
            )),
            old(self).depth < old(self).limits.max_nesting_depth && old(self).next_kind()
                == TokenKind::RBracket ==> (r matches Ok(Value::List(l)) && l.pos == old(
                self,
            ).current.pos && l.elements@.len() == 0),
            old(self).depth < old(self).limits.max_nesting_depth && old(self).next_kind()
                == TokenKind::Eof ==> (r matches Err(e) && e.msg@ == "expected ']'"@ + ", got "@
                + token_kind_name(TokenKind::Eof)),
            r matches Ok(v) ==> value_tree(
                old(self).lex.source(),
                old(self).tok(),
                old(self).room(),
                old(self).limits,
                v,
            ) == Some(final(self).tok()),
            match list_run(old(self).lex.source(), old(self).cur(), old(self).room(), old(self).limits) {
                Some(w) => r is Ok && final(self).cur() == w,
                None => r is Err,
            },
        decreases old(self).limits.max_nesting_depth - old(self).depth, 1int,
    {
        let pos = self.current.pos;
        self.enter(pos)?;
        self.advance();
        let ghost d = old(self).limits.max_nesting_depth - old(self).depth;
        let mut elements: Vec<Value> = Vec::new();
        let ghost first = self.tok();
        let ghost src = self.lex.source();
        let ghost lim = self.limits;
        proof {
            assert forall|rest: Seq<Value>| items_tree(src, first, d - 1, lim, elements@ + rest)
                == items_tree(src, self.tok(), d - 1, lim, rest) by {
                assert(elements@ + rest =~= rest);
            }
        }
        while self.current.kind != TokenKind::RBracket && self.current.kind != TokenKind::Eof
            invariant
                first == sig(src, old(self).cur_end as int),
                src == old(self).lex.source(),
                lim == old(self).limits,
                forall|rest: Seq<Value>| #[trigger]
                    items_tree(src, first, d - 1, lim, elements@ + rest) == items_tree(
                        src,
                        self.tok(),
                        d - 1,
                        lim,
                        rest,
                    ),
                self.inv(),
                self.lex.source() == old(self).lex.source(),
                self.limits == old(self).limits,
                self.depth == old(self).depth + 1,
                d == old(self).limits.max_nesting_depth - old(self).depth,
                self.measure() < old(self).measure(),
                elements@.len() == 0 ==> self.current.kind == old(self).next_kind(),
                list_run(old(self).lex.source(), old(self).cur(), old(self).room(), old(self).limits)
                    == items_run(self.lex.source(), self.cur(), old(self).room() - 1, self.limits),
                old(self).next_kind() == TokenKind::RBracket || old(self).next_kind()
                    == TokenKind::Eof ==> elements@.len() == 0,
                forall|i: int|
                    0 <= i < elements@.len() ==> value_ok(
                        #[trigger] elements@[i],
                        d - 1,
                        old(self).limits,
                    ),
            decreases self.measure(),
        {
            let ghost u = self.cur();
            let ghost ut = self.tok();
            let ghost before = elements@;
            let v = self.parse_value()?;
            elements.push(v);
            let ghost w = self.cur();
            if self.current.kind == TokenKind::Comma {
                self.advance();
            }
            proof {
                let dd = old(self).room() - 1;
                assert(w.0 != TokenKind::Eof ==> u.2 < w.2);
                assert(items_run(src, u, dd, self.limits) == items_run(src, self.cur(), dd, self.limits));
                assert forall|rest: Seq<Value>| #[trigger]
                    items_tree(src, first, d - 1, lim, elements@ + rest) == items_tree(
                        src,
                        self.tok(),
                        d - 1,
                        lim,
                        rest,
                    ) by {
                    let r2 = seq![v] + rest;
                    assert(elements@ + rest =~= before + r2);
                    assert(r2[0] == v);
                    assert(r2.drop_first() =~= rest);
                    assert(items_tree(src, ut, d - 1, lim, r2) == items_tree(src, self.tok(), d - 1, lim, rest));
                }
            }
        }
        if self.current.kind != TokenKind::RBracket {
            return Err(PxfError::new(self.current.pos, self.got("expected ']'")));
        }
        proof {
            assert(elements@ + Seq::<Value>::empty() =~= elements@);
            assert(items_tree(src, first, d - 1, lim, elements@ + Seq::<Value>::empty()) == Some(
                sig(src, self.cur_end as int),
            ));
        }
        self.advance();
        self.leave();
        let v = Value::List(ListVal { pos, elements });
        assert(value_ok(v, d, old(self).limits));
        Ok(v)
    }

    fn parse_block_val(&mut self) -> (r: Result<Value, PxfError>)
        requires
            old(self).inv(),
            old(self).current.kind == TokenKind::LBrace,
        ensures
            final(self).inv(),
            final(self).lex.source() == old(self).lex.source(),
            final(self).limits == old(self).limits,
            r is Ok ==> final(self).depth == old(self).depth,
            r is Ok ==> final(self).measure() < old(self).measure(),
            r matches Ok(v) ==> value_ok(
                v,
                old(self).limits.max_nesting_depth - old(self).depth,
                old(self).limits,
            ),
            r matches Ok(v) ==> v is Block,
            old(self).depth >= old(self).limits.max_nesting_depth ==> (r matches Err(e) && e.pos
                == old(self).current.pos && e.msg@ == depth_error(
                old(self).limits.max_nesting_depth as nat,
            )),
            old(self).depth < old(self).limits.max_nesting_depth && old(self).next_kind()
                == TokenKind::RBrace ==> (r matches Ok(Value::Block(b)) && b.pos == old(
                self,
            ).current.pos && b.entries@.len() == 0),
            old(self).depth < old(self).limits.max_nesting_depth && old(self).next_kind()
                == TokenKind::Eof ==> (r matches Err(e) && e.msg@ == "expected '}'"@ + ", got "@
                + token_kind_name(TokenKind::Eof)),
            r matches Ok(v) ==> value_tree(
                old(self).lex.source(),
                old(self).tok(),
                old(self).room(),
                old(self).limits,
                v,
            ) == Some(final(self).tok()),
            match value_run(old(self).lex.source(), old(self).cur(), old(self).room(), old(self).limits) {
                Some(w) => r is Ok && final(self).cur() == w,
                None => r is Err,
            },
        decreases old(self).limits.max_nesting_depth - old(self).depth, 2int,
    {
        let pos = self.current.pos;
        self.advance();
        let entries = self.parse_body(pos)?;
        let v = Value::Block(BlockVal { pos, entries });
        assert(value_ok(v, old(self).limits.max_nesting_depth - old(self).depth, old(self).limits));
        Ok(v)
    }

    /// The entries of a `{ ... }` whose `{` is consumed, and its `}`.
    fn parse_body(&mut self, open_pos: Position) -> (r: Result<Vec<Entry>, PxfError>)
        requires
            old(self).inv(),
        ensures
            final(self).inv(),
            final(self).lex.source() == old(self).lex.source(),
            final(self).limits == old(self).limits,
            r is Ok ==> final(self).depth == old(self).depth,
            r is Ok ==> final(self).measure() < old(self).measure(),
            r is Ok ==> old(self).depth < old(self).limits.max_nesting_depth,
            r matches Ok(es) ==> entries_ok(
                es@,
                old(self).limits.max_nesting_depth - old(self).depth - 1,
                true,
                old(self).limits,
            ),
            old(self).depth >= old(self).limits.max_nesting_depth ==> (r matches Err(e) && e.pos
                == open_pos && e.msg@ == depth_error(old(self).limits.max_nesting_depth as nat)),
            old(self).depth < old(self).limits.max_nesting_depth && old(self).current.kind
                == TokenKind::RBrace ==> (r matches Ok(es) && es@.len() == 0),
            old(self).depth < old(self).limits.max_nesting_depth && old(self).current.kind
                == TokenKind::Eof ==> (r matches Err(e) && e.msg@ == "expected '}'"@ + ", got "@
                + token_kind_name(TokenKind::Eof)),
            r matches Ok(es) ==> body_tree(
                old(self).lex.source(),
                old(self).tok(),
                old(self).room() - 1,
                old(self).limits,
                es@,
            ) == Some(final(self).tok()),
            old(self).room() <= 0 ==> r is Err,
            old(self).room() > 0 ==> match body_items(
                old(self).lex.source(),
                old(self).cur(),
                old(self).room() - 1,
                old(self).limits,
            ) {
                Some(w) => r is Ok && final(self).cur() == w,
                None => r is Err,
            },
        decreases old(self).limits.max_nesting_depth - old(self).depth, 1int,
    {
        self.enter(open_pos)?;
        let ghost d = old(self).limits.max_nesting_depth - old(self).depth - 1;
        let mut entries: Vec<Entry> = Vec::new();
        let ghost first = self.tok();
        let ghost src = self.lex.source();
        let ghost lim = self.limits;
        proof {
            assert forall|rest: Seq<Entry>| body_tree(src, first, d, lim, entries@ + rest)
                == body_tree(src, self.tok(), d, lim, rest) by {
                assert(entries@ + rest =~= rest);
            }
        }
        while self.current.kind != TokenKind::RBrace && self.current.kind != TokenKind::Eof
            invariant
                first == old(self).tok(),
                src == old(self).lex.source(),
                lim == old(self).limits,
                forall|rest: Seq<Entry>| #[trigger]
                    body_tree(src, first, d, lim, entries@ + rest) == body_tree(
                        src,
                        self.tok(),
                        d,
                        lim,
                        rest,
                    ),
                self.inv(),
                self.lex.source() == old(self).lex.source(),
                self.limits == old(self).limits,
                self.depth == old(self).depth + 1,
                d == old(self).limits.max_nesting_depth - old(self).depth - 1,
                self.measure() <= old(self).measure(),
                entries@.len() == 0 ==> self.current.kind == old(self).current.kind,
                body_items(old(self).lex.source(), old(self).cur(), old(self).room() - 1, old(self).limits)
                    == body_items(self.lex.source(), self.cur(), old(self).room() - 1, self.limits),
                old(self).current.kind == TokenKind::RBrace || old(self).current.kind
                    == TokenKind::Eof ==> entries@.len() == 0,
                entries_ok(entries@, d, true, old(self).limits),
            decreases self.measure(),
        {
            let ghost u = self.cur();
            let ghost ut = self.tok();
            let ghost before = entries@;
            let e = self.parse_entry(true)?;
            entries.push(e);
            proof {
                let w = self.cur();
                assert(w.0 != TokenKind::Eof ==> u.2 < w.2);
                assert forall|rest: Seq<Entry>| #[trigger]
                    body_tree(src, first, d, lim, entries@ + rest) == body_tree(
                        src,
                        self.tok(),
                        d,
                        lim,
                        rest,
                    ) by {
                    let r2 = seq![e] + rest;
                    assert(entries@ + rest =~= before + r2);
                    assert(r2[0] == e);
                    assert(r2.drop_first() =~= rest);
                    assert(body_tree(src, ut, d, lim, r2) == body_tree(src, self.tok(), d, lim, rest));
                }
            }
            assert(entries_ok(entries@, d, true, old(self).limits)) by {
                assert forall|i: int| 0 <= i < entries@.len() implies entry_ok(
                    #[trigger] entries@[i],
                    d,
                    true,
                    old(self).limits,
                ) by {
                    if i < entries@.len() - 1 {
                        assert(entries@[i] == entries@.drop_last()[i]);
                    }
                }
            }
        }
        if self.current.kind != TokenKind::RBrace {
            return Err(PxfError::new(self.current.pos, self.got("expected '}'")));
        }
        proof {
            assert(entries@ + Seq::<Entry>::empty() =~= entries@);
            assert(body_tree(src, first, d, lim, entries@ + Seq::<Entry>::empty()) == Some(
                sig(src, self.cur_end as int),
            ));
        }
        self.advance();
        self.leave();
        Ok(entries)
    }

    /// One `key = value`, `key: value` or `key { ... }` entry; the `:` form
    /// only where `allow_map_entry`.
    #[verifier::rlimit(60)]
    fn parse_entry(&mut self, allow_map_entry: bool) -> (r: Result<Entry, PxfError>)
        requires
            old(self).inv(),
        ensures
            final(self).inv(),
            final(self).lex.source() == old(self).lex.source(),
            final(self).limits == old(self).limits,
            r is Ok ==> final(self).depth == old(self).depth,
            r is Ok ==> final(self).measure() < old(self).measure(),
            r matches Ok(e) ==> entry_ok(
                e,
                old(self).limits.max_nesting_depth - old(self).depth,
                allow_map_entry,
                old(self).limits,
            ),
            ({
                let pos = old(self).current.pos;
                let k = old(self).current.kind;
                let key = old(self).current.value@;
                let s = old(self).lex.source();
                let nk = old(self).next_kind();
                let after = sig(s, old(self).cur_end as int);
                let vk = sig_kind(s, after.0.2);
                let named = k == TokenKind::Ident || k == TokenKind::String;
                if !(named || k == TokenKind::Int || k == TokenKind::Bool) {
                    r matches Err(e) && e.pos == pos && e.msg@ == "expected identifier, string, or integer"@
                        + ", got "@ + token_kind_name(k) + " ("@ + "\""@ + key + "\""@ + ")"@
                } else if nk == TokenKind::Equals {
                    &&& !named ==> (r matches Err(e) && e.pos == pos && e.msg@
                        == "field assignment with '=' requires "@ + key_requirement(k) + ", got "@
                        + token_kind_name(k) + " ("@ + "\""@ + key + "\""@
                        + "); use ':' for map entries"@)
                    &&& named && scalar_kind(vk) ==> (r matches Ok(Entry::Assignment(a)) && a.pos
                        == pos && a.key@ == key && a.key_quoted == (k == TokenKind::String)
                        && a.leading_comments@ == old(self).pending@)
                } else if nk == TokenKind::Colon {
                    &&& !allow_map_entry ==> (r matches Err(e) && e.pos == pos && e.msg@
                        == "map entry (':' form) is only allowed inside a '{ … }' block; use '=' for top-level field assignments"@)
                    &&& allow_map_entry && scalar_kind(vk) ==> (r matches Ok(Entry::MapEntry(m))
                        && m.pos == pos && m.key@ == key && m.leading_comments@ == old(self).pending@)
                } else if nk == TokenKind::LBrace {
                    &&& !named ==> (r matches Err(e) && e.pos == pos && e.msg@
                        == "submessage block requires "@ + key_requirement(k) + ", got "@
                        + token_kind_name(k) + " ("@ + "\""@ + key + "\""@ + ")"@)
                    &&& named && old(self).depth < old(self).limits.max_nesting_depth && vk
                        == TokenKind::RBrace ==> (r matches Ok(Entry::Block(b)) && b.pos == pos
                        && b.name@ == key && b.name_quoted == (k == TokenKind::String)
                        && b.entries@.len() == 0 && b.leading_comments@ == old(self).pending@)
                } else {
                    r matches Err(e) && e.pos == position_at(s, after.1) && e.msg@
                        == "expected '=', ':', or '{' after "@ + "\""@ + key + "\""@ + ", got "@
                        + token_kind_name(nk)
                }
            }),
            r matches Ok(e) ==> entry_tree(
                old(self).lex.source(),
                old(self).tok(),
                old(self).room(),
                allow_map_entry,
                old(self).limits,
                e,
            ) == Some(final(self).tok()),
            match entry_run(
                old(self).lex.source(),
                old(self).cur(),
                old(self).room(),
                allow_map_entry,
                old(self).limits,
            ) {
                Some(w) => r is Ok && final(self).cur() == w,
                None => r is Err,
            },
        decreases old(self).limits.max_nesting_depth - old(self).depth, 4int,
    {
        let leading_comments = self.flush_comments();
        let pos = self.current.pos;
        let k = self.current.kind;
        if !(k == TokenKind::Ident || k == TokenKind::String || k == TokenKind::Int || k
            == TokenKind::Bool) {
            return Err(PxfError::new(pos, self.got_value("expected identifier, string, or integer")));
        }
        let key = self.take_value();
        self.advance();
        let ghost d = old(self).limits.max_nesting_depth - old(self).depth;
        match self.current.kind {
            TokenKind::Equals => {
                if k == TokenKind::Int || k == TokenKind::Bool {
                    let mut m = cat4(
                        "field assignment with '=' requires ",
                        key_requirement_text(k),
                        ", got ",
                        k.name(),
                    );
                    push_str(&mut m, " (");
                    let q = quoted(key.as_str());
                    push_str(&mut m, q.as_str());
                    push_str(&mut m, "); use ':' for map entries");
                    return Err(PxfError::new(pos, m));
                }
                self.advance();
                let value = self.parse_value()?;
                Ok(
                    Entry::Assignment(
                        Assignment {
                            pos,
                            key,
                            key_quoted: k == TokenKind::String,
                            value,
                            leading_comments,
                            trailing_comment: String::new(),
                        },
                    ),
                )
            },
            TokenKind::Colon => {
                if !allow_map_entry {
                    return Err(
                        PxfError::new(
                            pos,
                            owned(
                                "map entry (':' form) is only allowed inside a '{ … }' block; use '=' for top-level field assignments",
                            ),
                        ),
                    );
                }
                self.advance();
                let value = self.parse_value()?;
                Ok(
                    Entry::MapEntry(
                        MapEntry {
                            pos,
                            key,
                            value,
                            leading_comments,
                            trailing_comment: String::new(),
                        },
                    ),
                )
            },
            TokenKind::LBrace => {
                if k == TokenKind::Int || k == TokenKind::Bool {
                    let mut m = cat4(
                        "submessage block requires ",
                        key_requirement_text(k),
                        ", got ",
                        k.name(),
                    );
                    push_str(&mut m, " (");
                    let q = quoted(key.as_str());
                    push_str(&mut m, q.as_str());
                    push_str(&mut m, ")");
                    return Err(PxfError::new(pos, m));
                }
                let open_pos = self.current.pos;
                self.advance();
                let entries = self.parse_body(open_pos)?;
                let e = Entry::Block(
                    Block {
                        pos,
                        name: key,
                        name_quoted: k == TokenKind::String,
                        entries,
                        leading_comments,
                    },
                );
                assert(entry_ok(e, d, allow_map_entry, old(self).limits));
                Ok(e)
            },
            _ => {
                let q = quoted(key.as_str());
                let m = cat4("expected '=', ':', or '{' after ", q.as_str(), ", got ", self.current.kind.name());
                Err(PxfError::new(self.current.pos, m))
            },
        }
    }

    /// With `current` a `{`: the bytes up to its matching `}`, which is
    /// consumed with them.
    fn raw_body(&mut self, what: &str) -> (r: Result<Vec<u8>, PxfError>)
        requires
            old(self).inv(),
            old(self).current.kind == TokenKind::LBrace,
        ensures
            final(self).inv(),
            final(self).lex.source() == old(self).lex.source(),
            final(self).limits == old(self).limits,
            final(self).depth == old(self).depth,
            r is Ok ==> final(self).measure() < old(self).measure(),
            match match_close(old(self).lex.source(), old(self).cur_end as int, 1, 123, 125) {
                Ok(Some(j)) => (r matches Ok(b) && b@ == old(self).lex.source().subrange(
                    old(self).cur_end as int,
                    j,
                )) && final(self).reads(j + 1) && (final(self).current.kind != TokenKind::Eof
                    ==> final(self).cur_end > j + 1),
                _ => r matches Err(e) && e.pos == old(self).current.pos && e.msg@
                    == "unmatched '{' in "@ + what@ + " body"@,
            },
            match_close(old(self).lex.source(), old(self).cur_end as int, 1, 123, 125) matches Ok(
                Some(j),
            ) ==> old(self).cur_end <= j,
    {
        let pos = self.current.pos;
        let input = self.lex.input_bytes();
        let from = self.cur_end;
        match find_matching(input, from, 123, 125) {
            Ok(Some(close)) => {
                let body = crate::text::bytes_range(input, from, close);
                self.lex.skip_to(close + 1);
                self.cur_end = close + 1;
                self.advance();
                Ok(body)
            },
            _ => Err(PxfError::new(pos, cat3("unmatched '{' in ", what, " body"))),
        }
    }

    /// `@<name> *(<prefix>) [{ ... }]`, with `current` the `@<name>` token:
    /// the prefixes are the identifiers on the directive's line, and a `{`
    /// on that line opens its body.
    fn parse_directive(&mut self, name: String) -> (r: Result<Directive, PxfError>)
        requires
            old(self).inv(),
            old(self).current.kind == TokenKind::Illegal,
            !future_reserved_directive(name@),
        ensures
            final(self).inv(),
            final(self).lex.source() == old(self).lex.source(),
            final(self).limits == old(self).limits,
            final(self).depth == old(self).depth,
            r is Ok ==> final(self).measure() < old(self).measure(),
            r matches Ok(d) ==> directive_ok(d) && d.name == name,
            ({
                let s = old(self).lex.source();
                let pos = old(self).current.pos;
                let run = prefix_run(s, old(self).cur_end as int, pos.line);
                let stop = sig(s, run.1);
                if stop.0.0 == TokenKind::LBrace && position_at(s, stop.1).line == pos.line {
                    match match_close(s, stop.0.2, 1, 123, 125) {
                        Ok(Some(j)) => r matches Ok(d) && d.pos == pos && string_views(
                            d.prefixes@,
                        ) == run.0 && d.has_body && d.body@ == s.subrange(stop.0.2, j)
                            && d.leading_comments@ == old(self).pending@,
                        _ => r matches Err(e) && e.pos == position_at(s, stop.1) && e.msg@
                            == "unmatched '{' in "@ + ("@"@ + name@) + " body"@,
                    }
                } else {
                    r matches Ok(d) && d.pos == pos && string_views(d.prefixes@) == run.0
                        && !d.has_body && d.leading_comments@ == old(self).pending@
                }
            }),
            match directive_end(
                old(self).lex.source(),
                old(self).cur_end as int,
                old(self).current.pos.line,
            ) {
                Some(e) => r is Ok && final(self).reads(e) && e >= old(self).cur_end && (final(self).current.kind
                    != TokenKind::Eof ==> final(self).cur_end > e),
                None => r is Err,
            },
            r matches Ok(d) ==> directive_fields(
                old(self).lex.source(),
                old(self).cur_end as int,
                old(self).current.pos.line,
                old(self).current.pos,
                name@,
                d,
            ),
    {
        proof {
            reveal(directive_fields);
        }
        let pos = self.current.pos;
        let line = pos.line;
        let leading_comments = self.flush_comments();
        self.advance();
        let mut prefixes: Vec<String> = Vec::new();
        let ghost s = old(self).lex.source();
        let ghost mut c: int = old(self).cur_end as int;
        proof {
            assert(string_views(prefixes@) =~= seq![]);
            assert(prefix_run(s, old(self).cur_end as int, line).0 =~= seq![] + prefix_run(s, c, line).0);
        }
        while self.current.kind == TokenKind::Ident && self.current.pos.line == line
            invariant
                self.inv(),
                self.lex.source() == s,
                s == old(self).lex.source(),
                line == old(self).current.pos.line,
                self.limits == old(self).limits,
                self.depth == old(self).depth,
                self.measure() < old(self).measure(),
                self.reads(c),
                c >= old(self).cur_end,
                self.current.kind != TokenKind::Eof ==> self.cur_end > c,
                prefix_run(s, old(self).cur_end as int, line).0 == string_views(prefixes@)
                    + prefix_run(s, c, line).0,
                prefix_run(s, old(self).cur_end as int, line).1 == prefix_run(s, c, line).1,
                leading_comments@ == old(self).pending@,
            decreases self.measure(),
        {
            let ghost c0 = c;
            let ghost before = prefixes@;
            let v = self.take_value();
            prefixes.push(v);
            proof {
                c = self.cur_end as int;
                assert(string_views(prefixes@) =~= string_views(before).push(v@));
                assert(prefix_run(s, c0, line).0 =~= seq![v@] + prefix_run(s, c, line).0);
            }
            self.advance();
        }
        proof {
            assert(prefix_run(s, c, line).0 =~= seq![]);
            assert(string_views(prefixes@) + seq![] =~= string_views(prefixes@));
        }
        let mut body: Vec<u8> = Vec::new();
        let mut has_body = false;
        if self.current.kind == TokenKind::LBrace && self.current.pos.line == line {
            let what = cat2("@", name.as_str());
            body = self.raw_body(what.as_str())?;
            has_body = true;
        }
        let message_type = if prefixes.len() == 1 {
            prefixes[0].clone()
        } else {
            String::new()
        };
        Ok(Directive { pos, name, prefixes, message_type, body, has_body, leading_comments })
    }

    /// One cell of a dataset row, read from offset `c`: `None` where the
    /// token there is a `,` or `)`, else its value; lists and blocks are
    /// refused.
    fn parse_cell(&mut self, word: &str, Ghost(c): Ghost<int>) -> (r: Result<Option<Value>, PxfError>)
        requires
            old(self).inv(),
            0 <= c,
            old(self).reads(c),
            old(self).current.kind != TokenKind::Eof ==> old(self).cur_end > c,
        ensures
            final(self).inv(),
            final(self).lex.source() == old(self).lex.source(),
            final(self).limits == old(self).limits,
            r is Ok ==> final(self).depth == old(self).depth,
            r is Ok ==> final(self).measure() <= old(self).measure(),
            cell_end(old(self).lex.source(), c, old(self).limits) < 0 <==> r is Err,
            r is Ok ==> final(self).reads(cell_end(old(self).lex.source(), c, old(self).limits)),
            r is Ok && final(self).current.kind != TokenKind::Eof ==> final(self).cur_end > cell_end(
                old(self).lex.source(),
                c,
                old(self).limits,
            ),
            r is Ok ==> cell_end(old(self).lex.source(), c, old(self).limits) >= c,
            r matches Ok(cell) ==> match cell {
                Some(v) => !(v is List) && !(v is Block) && value_ok(v, 0, old(self).limits),
                None => true,
            },
            r matches Ok(cell) ==> cell_ok(old(self).lex.source(), c, old(self).limits, cell),
    {
        let k = self.current.kind;
        if k == TokenKind::Comma || k == TokenKind::RParen {
            Ok(None)
        } else if k == TokenKind::LBracket {
            Err(PxfError::new(self.current.pos, cat2(word, " cells cannot hold list values")))
        } else if k == TokenKind::LBrace {
            Err(PxfError::new(self.current.pos, cat2(word, " cells cannot hold block values")))
        } else {
            let v = self.parse_value()?;
            assert(!(v is List) && !(v is Block));
            Ok(Some(v))
        }
    }

    /// One `( cell, ... )` row of a dataset with `ncols` columns.
    #[verifier::rlimit(40)]
    fn parse_row(&mut self, word: &str, ncols: usize) -> (r: Result<DatasetRow, PxfError>)
        requires
            old(self).inv(),
            old(self).current.kind == TokenKind::LParen,
        ensures
            final(self).inv(),
            final(self).lex.source() == old(self).lex.source(),
            final(self).limits == old(self).limits,
            r is Ok ==> final(self).depth == old(self).depth,
            r is Ok ==> final(self).measure() < old(self).measure(),
            r matches Ok(row) ==> row.cells@.len() == ncols && forall|c: int|
                0 <= c < row.cells@.len() ==> match #[trigger] row.cells@[c] {
                    Some(v) => !(v is List) && !(v is Block) && value_ok(v, 0, old(self).limits),
                    None => true,
                },
            match row_cells(old(self).lex.source(), old(self).cur_end as int, old(self).limits) {
                Some((n, end)) => if n == ncols {
                    r matches Ok(row) && row.pos == old(self).current.pos && final(self).reads(end)
                        && (final(self).current.kind != TokenKind::Eof ==> final(self).cur_end
                        > end) && end > old(self).cur_end
                } else {
                    r matches Err(e) && e.pos == old(self).current.pos && e.msg@ == word@
                        + " row has "@ + crate::text::decimal_chars(n) + " cells, expected "@
                        + crate::text::decimal_chars(ncols as nat)
                },
                None => r is Err,
            },
            r matches Ok(row) ==> row.pos == old(self).current.pos && cells_tree(
                old(self).lex.source(),
                old(self).cur_end as int,
                old(self).limits,
                row.cells@,
            ),
    {
        let row_pos = self.current.pos;
        self.advance();
        let mut cells: Vec<Option<Value>> = Vec::new();
        let ghost s = old(self).lex.source();
        let ghost lim = old(self).limits;
        let ghost c0 = old(self).cur_end as int;
        let ghost mut c: int = c0;
        proof {
            assert forall|rest: Seq<Option<Value>>| #[trigger]
                cells_tree(s, c0, lim, cells@ + rest) == cells_tree(s, c, lim, rest) by {
                assert(cells@ + rest =~= rest);
            }
        }
        loop
            invariant_except_break
                row_cells(s, c0, lim) == add_n(row_cells(s, c, lim), cells@.len()),
                forall|rest: Seq<Option<Value>>| #[trigger]
                    cells_tree(s, c0, lim, cells@ + rest) == cells_tree(s, c, lim, rest),
                0 <= c0 <= c,
                self.reads(c),
                self.current.kind != TokenKind::Eof ==> self.cur_end > c,
            invariant
                s == old(self).lex.source(),
                lim == old(self).limits,
                c0 == old(self).cur_end,
                self.inv(),
                self.lex.source() == old(self).lex.source(),
                self.limits == old(self).limits,
                self.depth == old(self).depth,
                self.measure() < old(self).measure(),
                forall|c: int|
                    0 <= c < cells@.len() ==> match #[trigger] cells@[c] {
                        Some(v) => !(v is List) && !(v is Block) && value_ok(
                            v,
                            0,
                            old(self).limits,
                        ),
                        None => true,
                    },
            ensures
                row_cells(s, c0, lim) == Some((cells@.len() as nat, self.prev_end as int)),
                cells_tree(s, c0, lim, cells@),
                self.reads(self.prev_end as int),
                self.current.kind != TokenKind::Eof ==> self.cur_end > self.prev_end,
                self.prev_end > c0,
            decreases self.measure(),
        {
            let ghost ci = c;
            let ghost before = cells@;
            let cell = self.parse_cell(word, Ghost(c))?;
            cells.push(cell);
            proof {
                c = cell_end(s, ci, lim);
            }
            if self.current.kind == TokenKind::Comma {
                proof {
                    c = self.cur_end as int;
                    assert(row_cells(s, ci, lim) == add_n(row_cells(s, c, lim), 1));
                    assert forall|rest: Seq<Option<Value>>| #[trigger]
                        cells_tree(s, c0, lim, cells@ + rest) == cells_tree(s, c, lim, rest) by {
                        let r2 = seq![cell] + rest;
                        assert(cells@ + rest =~= before + r2);
                        assert(r2[0] == cell);
                        assert(r2.drop_first() =~= rest);
                        assert(cells_tree(s, ci, lim, r2) == cells_tree(s, c, lim, rest));
                    }
                }
                self.advance();
            } else if self.current.kind == TokenKind::RParen {
                assert(row_cells(s, ci, lim) == Some((1nat, self.cur_end as int)));
                proof {
                    assert(cells@ =~= before + seq![cell]);
                    assert(cells_tree(s, ci, lim, seq![cell]));
                }
                let ghost e = self.cur_end as int;
                self.advance();
                assert(self.prev_end == e);
                break ;
            } else {
                let m = self.got(cat3("expected ',' or ')' in ", word, " row").as_str());
                return Err(PxfError::new(self.current.pos, m));
            }
        }
        if cells.len() != ncols {
            let mut m = cat2(word, " row has ");
            push_decimal(&mut m, cells.len() as u64);
            push_str(&mut m, " cells, expected ");
            push_decimal(&mut m, ncols as u64);
            return Err(PxfError::new(row_pos, m));
        }
        Ok(DatasetRow { pos: row_pos, cells })
    }

    /// The column names of a dataset, read from offset `c0` up to and
    /// including their `)`.
    #[verifier::rlimit(40)]
    fn parse_columns(&mut self, word: &str, Ghost(c0): Ghost<int>) -> (r: Result<Vec<String>, PxfError>)
        requires
            old(self).inv(),
            0 <= c0,
            old(self).reads(c0),
            old(self).current.kind != TokenKind::Eof ==> old(self).cur_end > c0,
        ensures
            final(self).inv(),
            final(self).lex.source() == old(self).lex.source(),
            final(self).limits == old(self).limits,
            final(self).depth == old(self).depth,
            r is Ok ==> final(self).measure() < old(self).measure(),
            match column_run(old(self).lex.source(), c0) {
                Some((cs, e)) => (r matches Ok(cols) && string_views(cols@) == cs) && final(self).reads(e)
                    && (final(self).current.kind != TokenKind::Eof ==> final(self).cur_end > e) && e
                    > c0,
                None => r is Err,
            },
            r matches Ok(cols) ==> cols@.len() >= 1 && forall|k: int|
                0 <= k < cols@.len() ==> !(#[trigger] cols@[k])@.contains('.'),
    {
        let ghost s = old(self).lex.source();
        let mut columns: Vec<String> = Vec::new();
        let ghost mut c: int = c0;
        proof {
            assert(string_views(columns@) =~= seq![]);
            assert(column_run(s, c0) == match column_run(s, c) {
                Some((cs, e)) => Some((string_views(columns@) + cs, e)),
                None => None,
            }) by {
                if column_run(s, c) is Some {
                    assert(seq![] + column_run(s, c)->Some_0.0 =~= column_run(s, c)->Some_0.0);
                }
            }
        }
        loop
            invariant_except_break
                self.reads(c),
                self.current.kind != TokenKind::Eof ==> self.cur_end > c,
                column_run(s, c0) == match column_run(s, c) {
                    Some((cs, e)) => Some((string_views(columns@) + cs, e)),
                    None => None,
                },
            invariant
                s == old(self).lex.source(),
                0 <= c0 <= c,
                self.inv(),
                self.lex.source() == old(self).lex.source(),
                self.limits == old(self).limits,
                self.depth == old(self).depth,
                self.measure() <= old(self).measure(),
                columns@.len() > 0 ==> self.measure() < old(self).measure(),
                forall|k: int| 0 <= k < columns@.len() ==> !(#[trigger] columns@[k])@.contains('.'),
            ensures
                columns@.len() >= 1,
                self.measure() < old(self).measure(),
                column_run(s, c0) == Some((string_views(columns@), self.prev_end as int)),
                self.reads(self.prev_end as int),
                self.current.kind != TokenKind::Eof ==> self.cur_end > self.prev_end,
                self.prev_end > c0,
            decreases self.measure(),
        {
            let ghost ci = c;
            let ghost before = string_views(columns@);
            if self.current.kind != TokenKind::Ident {
                let m = self.got_value(cat3("expected column field name in ", word, " column list").as_str());
                return Err(PxfError::new(self.current.pos, m));
            }
            let col_pos = self.current.pos;
            let col = self.take_value();
            if has_dot(&col) {
                let mut m = cat2("dotted column name ", quoted(col.as_str()).as_str());
                push_str(&mut m, " in ");
                push_str(&mut m, word);
                push_str(&mut m, " column list; columns name top-level fields");
                return Err(PxfError::new(col_pos, m));
            }
            columns.push(col);
            proof {
                assert(string_views(columns@) =~= before.push(col@));
            }
            self.advance();
            if self.current.kind == TokenKind::Comma {
                proof {
                    c = self.cur_end as int;
                    if column_run(s, c) is Some {
                        assert(column_run(s, ci)->Some_0.0 =~= seq![col@] + column_run(
                            s,
                            c,
                        )->Some_0.0);
                        assert(before + column_run(s, ci)->Some_0.0 =~= string_views(columns@)
                            + column_run(s, c)->Some_0.0);
                    }
                }
                self.advance();
            } else if self.current.kind == TokenKind::RParen {
                let ghost e = self.cur_end as int;
                proof {
                    assert(column_run(s, ci) == Some((seq![col@], e)));
                    assert(before + seq![col@] =~= string_views(columns@));
                }
                self.advance();
                assert(self.prev_end == e);
                break ;
            } else {
                let m = self.got(cat3("expected ',' or ')' in ", word, " column list").as_str());
                return Err(PxfError::new(self.current.pos, m));
            }
        }
        Ok(columns)
    }

    /// The rows of a dataset of `ncols` columns, read from offset `q0` while
    /// each starts with `(`.
    #[verifier::rlimit(40)]
    fn parse_rows(&mut self, word: &str, ncols: usize, Ghost(q0): Ghost<int>) -> (r: Result<
        Vec<DatasetRow>,
        PxfError,
    >)
        requires
            old(self).inv(),
            0 <= q0,
            old(self).reads(q0),
            old(self).current.kind != TokenKind::Eof ==> old(self).cur_end > q0,
        ensures
            final(self).inv(),
            final(self).lex.source() == old(self).lex.source(),
            final(self).limits == old(self).limits,
            r is Ok ==> final(self).depth == old(self).depth,
            r is Ok ==> final(self).measure() <= old(self).measure(),
            match rows_run(old(self).lex.source(), q0, ncols as nat, old(self).limits) {
                Some((n, q)) => (r matches Ok(rows) && rows@.len() == n) && final(self).reads(q) && (
                final(self).current.kind != TokenKind::Eof ==> final(self).cur_end > q) && q >= q0,
                None => r is Err,
            },
            r matches Ok(rows) ==> rows_tree(old(self).lex.source(), q0, ncols as nat, old(self).limits, rows@),
            r matches Ok(rows) ==> (forall|i: int|
                0 <= i < rows@.len() ==> (#[trigger] rows@[i]).cells@.len() == ncols) && (forall|
                i: int,
                c: int,
            |
                0 <= i < rows@.len() && 0 <= c < rows@[i].cells@.len() ==> match #[trigger] rows@[i].cells@[c] {
                    Some(v) => !(v is List) && !(v is Block) && value_ok(v, 0, old(self).limits),
                    None => true,
                }),
    {
        let ghost s = old(self).lex.source();
        let ghost lim = old(self).limits;
        let mut rows: Vec<DatasetRow> = Vec::new();
        let ghost mut q: int = q0;
        proof {
            assert forall|rest: Seq<DatasetRow>| #[trigger]
                rows_tree(s, q0, ncols as nat, lim, rows@ + rest) == rows_tree(s, q, ncols as nat, lim, rest) by {
                assert(rows@ + rest =~= rest);
            }
        }
        while self.current.kind == TokenKind::LParen
            invariant
                forall|rest: Seq<DatasetRow>| #[trigger]
                    rows_tree(s, q0, ncols as nat, lim, rows@ + rest) == rows_tree(
                        s,
                        q,
                        ncols as nat,
                        lim,
                        rest,
                    ),
                self.reads(q),
                self.current.kind != TokenKind::Eof ==> self.cur_end > q,
                q0 <= q,
                rows_run(s, q0, ncols as nat, lim) == add_k(rows_run(s, q, ncols as nat, lim), rows@.len()),
                s == old(self).lex.source(),
                lim == old(self).limits,
                self.inv(),
                self.lex.source() == old(self).lex.source(),
                self.limits == old(self).limits,
                self.depth == old(self).depth,
                self.measure() <= old(self).measure(),
                forall|i: int| 0 <= i < rows@.len() ==> (#[trigger] rows@[i]).cells@.len() == ncols,
                forall|i: int, c: int|
                    0 <= i < rows@.len() && 0 <= c < rows@[i].cells@.len() ==> match #[trigger] rows@[i].cells@[c] {
                        Some(v) => !(v is List) && !(v is Block) && value_ok(
                            v,
                            0,
                            old(self).limits,
                        ),
                        None => true,
                    },
            decreases self.measure(),
        {
            let ghost qi = q;
            let ghost before = rows@;
            let row = self.parse_row(word, ncols)?;
            rows.push(row);
            proof {
                let t = sig(s, qi).0;
                let qn = row_cells(s, t.2, lim)->Some_0.1;
                assert forall|rest: Seq<DatasetRow>| #[trigger]
                    rows_tree(s, q0, ncols as nat, lim, rows@ + rest) == rows_tree(
                        s,
                        qn,
                        ncols as nat,
                        lim,
                        rest,
                    ) by {
                    let r2 = seq![row] + rest;
                    assert(rows@ + rest =~= before + r2);
                    assert(r2[0] == row);
                    assert(r2.drop_first() =~= rest);
                    assert(rows_tree(s, qi, ncols as nat, lim, r2) == rows_tree(s, qn, ncols as nat, lim, rest));
                }
                let t = sig(s, qi).0;
                q = row_cells(s, t.2, lim)->Some_0.1;
                lemma_rows_step(s, qi, ncols as nat, lim);
                assert forall|i: int, c: int|
                    0 <= i < rows@.len() && 0 <= c < rows@[i].cells@.len() implies match #[trigger] rows@[i].cells@[c] {
                    Some(v) => !(v is List) && !(v is Block) && value_ok(v, 0, old(self).limits),
                    None => true,
                } by {
                    if i < rows@.len() - 1 {
                        assert(rows@[i] == rows@.drop_last()[i]);
                    }
                }
            }
        }
        proof {
            assert(rows@ + Seq::<DatasetRow>::empty() =~= rows@);
        }
        Ok(rows)
    }

    /// `@table` / `@dataset` `<type> ( col, ... ) row*`, with `current` the
    /// directive token; the type may be left out where `type_optional`.
    #[verifier::rlimit(60)]
    fn parse_dataset(&mut self, word: &str, type_optional: bool) -> (r: Result<
        DatasetDirective,
        PxfError,
    >)
        requires
            old(self).inv(),
            old(self).current.kind != TokenKind::Eof,
        ensures
            final(self).inv(),
            final(self).lex.source() == old(self).lex.source(),
            final(self).limits == old(self).limits,
            r is Ok ==> final(self).depth == old(self).depth,
            r is Ok ==> final(self).measure() < old(self).measure(),
            r matches Ok(t) ==> dataset_ok(t, old(self).limits),
            match dataset_run(
                old(self).lex.source(),
                old(self).cur_end as int,
                type_optional,
                old(self).limits,
            ) {
                Some((ty, cols, n, q)) => (r matches Ok(t) && dataset_tree(
                    old(self).lex.source(),
                    old(self).cur_end as int,
                    type_optional,
                    old(self).limits,
                    old(self).current.pos,
                    t,
                ) && t.pos == old(self).current.pos
                    && t.message_type@ == ty && string_views(t.columns@) == cols && t.rows@.len()
                    == n && t.leading_comments@ == old(self).pending@) && final(self).reads(q)
                    && q > old(self).cur_end && (final(self).current.kind != TokenKind::Eof
                    ==> final(self).cur_end > q),
                None => r is Err,
            },
    {
        proof {
            reveal(dataset_tree);
        }
        let pos = self.current.pos;
        let leading_comments = self.flush_comments();
        let ghost s = old(self).lex.source();
        let ghost i0 = old(self).cur_end as int;
        self.advance();
        let ghost mut j: int = i0;
        if !type_optional && self.current.kind == TokenKind::LBrace {
            return Err(PxfError::new(pos, cat3("directive ", word, " is spec-reserved")));
        }
        let mut message_type = String::new();
        if self.current.kind == TokenKind::Ident {
            message_type = self.take_value();
            proof {
                j = self.cur_end as int;
            }
            self.advance();
        } else if !(type_optional && self.current.kind == TokenKind::LParen) {
            let m = self.got(cat2("expected row message type after ", word).as_str());
            return Err(PxfError::new(self.current.pos, m));
        }
        if self.current.kind != TokenKind::LParen {
            let m = self.got(cat3("expected '(' to start ", word, " column list").as_str());
            return Err(PxfError::new(self.current.pos, m));
        }
        let ghost c0 = self.cur_end as int;
        self.advance();
        if self.current.kind == TokenKind::RParen {
            return Err(
                PxfError::new(self.current.pos, cat2(word, " column list needs at least one field name")),
            );
        }
        let columns = self.parse_columns(word, Ghost(c0))?;
        let ghost e = column_run(s, c0)->Some_0.1;
        let rows = self.parse_rows(word, columns.len(), Ghost(e))?;
        proof {
            assert(string_views(columns@).len() == columns@.len());
        }
        Ok(DatasetDirective { pos, message_type, columns, rows, leading_comments })
    }

    /// `@proto <body>`, with `current` the `@proto` token.
    fn parse_proto(&mut self) -> (r: Result<ProtoDirective, PxfError>)
        requires
            old(self).inv(),
            old(self).current.kind != TokenKind::Eof,
        ensures
            final(self).inv(),
            final(self).lex.source() == old(self).lex.source(),
            final(self).limits == old(self).limits,
            final(self).depth == old(self).depth,
            r is Ok ==> final(self).measure() < old(self).measure(),
            r matches Ok(p) ==> (p.shape != ProtoShape::Named ==> p.message_name@.len() == 0),
            ({
                let s = old(self).lex.source();
                let pos = old(self).current.pos;
                let a = sig(s, old(self).cur_end as int);
                let b = sig(s, a.0.2);
                let comments = old(self).pending@;
                match a.0.0 {
                    TokenKind::LBrace => match match_close(s, a.0.2, 1, 123, 125) {
                        Ok(Some(j)) => r matches Ok(p) && p.pos == pos && p.shape
                            == ProtoShape::Anonymous && p.message_name@.len() == 0 && p.body@
                            == s.subrange(a.0.2, j) && p.leading_comments@ == comments,
                        _ => r matches Err(e) && e.pos == position_at(s, a.1) && e.msg@
                            == "unmatched '{' in "@ + "@proto"@ + " body"@,
                    },
                    TokenKind::Ident => if b.0.0 != TokenKind::LBrace {
                        r matches Err(e) && e.pos == position_at(s, b.1) && e.msg@
                            == "expected '{' after @proto "@ + a.0.1 + ", got "@ + token_kind_name(
                            b.0.0,
                        )
                    } else {
                        match match_close(s, b.0.2, 1, 123, 125) {
                            Ok(Some(j)) => r matches Ok(p) && p.pos == pos && p.shape
                                == ProtoShape::Named && p.message_name@ == a.0.1 && p.body@
                                == s.subrange(b.0.2, j) && p.leading_comments@ == comments,
                            _ => r matches Err(e) && e.pos == position_at(s, b.1) && e.msg@
                                == "unmatched '{' in "@ + "@proto"@ + " body"@,
                        }
                    },
                    TokenKind::String => r matches Ok(p) && p.pos == pos && p.shape
                        == ProtoShape::Source && p.message_name@.len() == 0 && p.body@
                        == encode_utf8(a.0.1) && p.leading_comments@ == comments,
                    TokenKind::Bytes => r matches Ok(p) && p.pos == pos && p.shape
                        == ProtoShape::Descriptor && p.message_name@.len() == 0 && p.body@
                        == base64_decode_spec(encode_utf8(a.0.1)) && p.leading_comments@ == comments,
                    _ => r matches Err(e) && e.pos == position_at(s, a.1) && e.msg@
                        == "expected '{', a message name, a triple-quoted string or a bytes literal after @proto"@
                        + ", got "@ + token_kind_name(a.0.0),
                }
            }),
            match proto_end(old(self).lex.source(), old(self).cur_end as int) {
                Some(e) => r is Ok && final(self).reads(e) && e > old(self).cur_end && (final(self).current.kind
                    != TokenKind::Eof ==> final(self).cur_end > e),
                None => r is Err,
            },
            r matches Ok(p) ==> proto_fields(
                old(self).lex.source(),
                old(self).cur_end as int,
                old(self).current.pos,
                p,
            ),
    {
        proof {
            reveal(proto_fields);
        }
        let pos = self.current.pos;
        let leading_comments = self.flush_comments();
        self.advance();
        match self.current.kind {
            TokenKind::LBrace => {
                let body = self.raw_body("@proto")?;
                Ok(
                    ProtoDirective {
                        pos,
                        shape: ProtoShape::Anonymous,
                        message_name: String::new(),
                        body,
                        leading_comments,
                    },
                )
            },
            TokenKind::Ident => {
                let name = self.take_value();
                self.advance();
                if self.current.kind != TokenKind::LBrace {
                    let m = self.got(cat2("expected '{' after @proto ", name.as_str()).as_str());
                    return Err(PxfError::new(self.current.pos, m));
                }
                let body = self.raw_body("@proto")?;
                Ok(
                    ProtoDirective {
                        pos,
                        shape: ProtoShape::Named,
                        message_name: name,
                        body,
                        leading_comments,
                    },
                )
            },
            TokenKind::String => {
                let text = self.take_value();
                let body = crate::text::bytes_to_vec(text.as_str().as_bytes());
                self.advance();
                Ok(
                    ProtoDirective {
                        pos,
                        shape: ProtoShape::Source,
                        message_name: String::new(),
                        body,
                        leading_comments,
                    },
                )
            },
            TokenKind::Bytes => {
                let body = decode_base64(self.current.value.as_str().as_bytes());
                self.advance();
                Ok(
                    ProtoDirective {
                        pos,
                        shape: ProtoShape::Descriptor,
                        message_name: String::new(),
                        body,
                        leading_comments,
                    },
                )
            },
            _ => {
                let m = self.got(
                    "expected '{', a message name, a triple-quoted string or a bytes literal after @proto",
                );
                Err(PxfError::new(self.current.pos, m))
            },
        }
    }

    /// The `@<name>` directive name `current` carries, if it is such a token.
    fn current_directive_name(&self) -> (r: Option<String>)
        ensures
            r is Some ==> self.current.kind == TokenKind::Illegal,
            r matches Some(n) ==> directive_name_of(self.current.value@) == Some(n@),
            self.current.kind == TokenKind::Illegal && directive_name_of(self.current.value@) is Some
                ==> r is Some,
    {
        if self.current.kind != TokenKind::Illegal {
            return None;
        }
        let t = crate::text::chars_of(self.current.value.as_str());
        if t.len() < 2 || t[0] != '@' {
            return None;
        }
        let mut name = String::new();
        let mut k: usize = 1;
        while k < t.len()
            invariant
                1 <= k <= t@.len(),
                name@ == t@.subrange(1, k as int),
            decreases t@.len() - k,
        {
            push_char(&mut name, t[k]);
            k = k + 1;
            assert(t@.subrange(1, k as int) == t@.subrange(1, k - 1).push(t@[k - 1]));
        }
        Some(name)
    }

    /// A `@table` / `@dataset` directive, as the head of a document reads it.
    fn dataset_step(&mut self, word: &str, type_optional: bool) -> (r: Result<
        DatasetDirective,
        PxfError,
    >)
        requires
            old(self).inv(),
            old(self).current.kind != TokenKind::Eof,
        ensures
            final(self).inv(),
            final(self).lex.source() == old(self).lex.source(),
            final(self).limits == old(self).limits,
            r is Ok ==> final(self).depth == old(self).depth,
            r is Ok ==> final(self).measure() < old(self).measure(),
            match dataset_run(
                old(self).lex.source(),
                old(self).cur_end as int,
                type_optional,
                old(self).limits,
            ) {
                Some((_, _, _, q)) => (r matches Ok(t) && dataset_ok(t, old(self).limits)) && final(self).reads(q)
                    && q > old(self).cur_end && (final(self).current.kind != TokenKind::Eof
                    ==> final(self).cur_end > q),
                None => r is Err,
            },
            r matches Ok(t) ==> dataset_tree(
                old(self).lex.source(),
                old(self).cur_end as int,
                type_optional,
                old(self).limits,
                old(self).current.pos,
                t,
            ),
    {
        self.parse_dataset(word, type_optional)
    }

    /// A `@proto` directive, as the head of a document reads it.
    fn proto_step(&mut self) -> (r: Result<ProtoDirective, PxfError>)
        requires
            old(self).inv(),
            old(self).current.kind != TokenKind::Eof,
        ensures
            final(self).inv(),
            final(self).lex.source() == old(self).lex.source(),
            final(self).limits == old(self).limits,
            final(self).depth == old(self).depth,
            r is Ok ==> final(self).measure() < old(self).measure(),
            match proto_end(old(self).lex.source(), old(self).cur_end as int) {
                Some(e) => (r matches Ok(p) && (p.shape != ProtoShape::Named ==> p.message_name@.len()
                    == 0)) && final(self).reads(e) && e > old(self).cur_end && (final(self).current.kind
                    != TokenKind::Eof ==> final(self).cur_end > e),
                None => r is Err,
            },
            r matches Ok(p) ==> proto_fields(
                old(self).lex.source(),
                old(self).cur_end as int,
                old(self).current.pos,
                p,
            ),
    {
        self.parse_proto()
    }

    /// A `@<name>` directive, as the head of a document reads it.
    fn directive_step(&mut self, name: String) -> (r: Result<Directive, PxfError>)
        requires
            old(self).inv(),
            old(self).current.kind == TokenKind::Illegal,
            !future_reserved_directive(name@),
        ensures
            final(self).inv(),
            final(self).lex.source() == old(self).lex.source(),
            final(self).limits == old(self).limits,
            final(self).depth == old(self).depth,
            r is Ok ==> final(self).measure() < old(self).measure(),
            match directive_end(
                old(self).lex.source(),
                old(self).cur_end as int,
                old(self).current.pos.line,
            ) {
                Some(e) => (r matches Ok(d) && directive_ok(d)) && final(self).reads(e) && e >= old(
                    self,
                ).cur_end && (final(self).current.kind != TokenKind::Eof ==> final(self).cur_end > e),
                None => r is Err,
            },
            r matches Ok(d) ==> directive_fields(
                old(self).lex.source(),
                old(self).cur_end as int,
                old(self).current.pos.line,
                old(self).current.pos,
                name@,
                d,
            ),
    {
        self.parse_directive(name)
    }

    /// One directive at the head of a document, added to `doc`: `false`,
    /// with nothing read, where the current token starts none.
    #[verifier::rlimit(60)]
    fn head_step(&mut self, doc: &mut Document, Ghost(i): Ghost<int>) -> (r: Result<bool, PxfError>)
        requires
            old(self).inv(),
            old(self).depth == 0,
            0 <= i,
            old(self).reads(i),
            old(self).current.kind != TokenKind::Eof ==> old(self).cur_end > i,
            head_ok(*old(doc), old(self).limits),
            old(doc).body_offset <= old(self).lex.source().len(),
        ensures
            final(self).inv(),
            final(self).lex.source() == old(self).lex.source(),
            final(self).limits == old(self).limits,
            r is Ok ==> final(self).depth == 0,
            head_ok(*final(doc), old(self).limits),
            final(doc).body_offset <= old(self).lex.source().len(),
            final(doc).leading_comments == old(doc).leading_comments,
            match header_step(
                old(self).lex.source(),
                i,
                old(doc).type_url@.len() > 0,
                old(doc).tables@.len() > 0,
                old(doc).datasets@.len() > 0,
                old(self).limits,
            ) {
                None => r is Err,
                Some(None) => r == Ok::<bool, PxfError>(false) && final(doc).type_url
                    == old(doc).type_url && final(doc).directives == old(doc).directives
                    && final(doc).datasets == old(doc).datasets && final(doc).tables == old(doc).tables
                    && final(doc).protos == old(doc).protos && final(self).reads(i) && (final(self).current.kind
                    != TokenKind::Eof ==> final(self).cur_end > i) && final(doc).type_url@.len()
                    == old(doc).type_url@.len() && final(doc).tables@.len() == old(doc).tables@.len()
                    && final(doc).datasets@.len() == old(doc).datasets@.len(),
                Some(Some((j, a, b, c))) => r == Ok::<bool, PxfError>(true) && head_added(
                    old(self).lex.source(),
                    i,
                    old(self).limits,
                    *old(doc),
                    *final(doc),
                ) && final(self).reads(j)
                    && (final(self).current.kind != TokenKind::Eof ==> final(self).cur_end > j) && j
                    > i && final(self).measure() < old(self).measure() && (final(doc).type_url@.len()
                    > 0) == a && (final(doc).tables@.len() > 0) == b && (final(doc).datasets@.len()
                    > 0) == c,
            },
    {
        proof {
            reveal(head_added);
            reveal(header_step);
        }
        let ghost lim = self.limits;
        let ghost src = self.lex.source();
        let k = self.current.kind;
        if k == TokenKind::AtType {
            if doc.tables.len() > 0 {
                return Err(PxfError::new(self.current.pos, owned("@table cannot coexist with @type")));
            }
            if doc.datasets.len() > 0 {
                return Err(PxfError::new(self.current.pos, owned("@dataset cannot coexist with @type")));
            }
            self.advance();
            if self.current.kind != TokenKind::Ident {
                let m = self.got("expected type name after @type");
                return Err(PxfError::new(self.current.pos, m));
            }
            doc.type_url = self.take_value();
            self.advance();
            doc.body_offset = self.prev_end;
            Ok(true)
        } else if k == TokenKind::AtDataset {
            if !doc.type_url.as_str().is_empty() {
                return Err(PxfError::new(self.current.pos, owned("@dataset cannot coexist with @type")));
            }
            let t = self.dataset_step("@dataset", true)?;
            doc.datasets.push(t);
            assert(doc.datasets@.drop_last() =~= old(doc).datasets@);
            doc.body_offset = self.prev_end;
            proof {
                assert(doc.datasets@.last() == t);
                assert forall|x: int| 0 <= x < doc.datasets@.len() implies dataset_ok(
                    #[trigger] doc.datasets@[x],
                    lim,
                ) by {
                    if x < doc.datasets@.len() - 1 {
                        assert(doc.datasets@[x] == old(doc).datasets@[x]);
                    }
                }
            }
            Ok(true)
        } else if k == TokenKind::AtProto {
            let p = self.proto_step()?;
            doc.protos.push(p);
            assert(doc.protos@.drop_last() =~= old(doc).protos@);
            doc.body_offset = self.prev_end;
            proof {
                assert forall|x: int| 0 <= x < doc.protos@.len() implies ((#[trigger] doc.protos@[x]).shape
                    != ProtoShape::Named ==> doc.protos@[x].message_name@.len() == 0) by {
                    if x < doc.protos@.len() - 1 {
                        assert(doc.protos@[x] == old(doc).protos@[x]);
                    }
                }
            }
            Ok(true)
        } else {
            match self.current_directive_name() {
                None => Ok(false),
                Some(name) => {
                    if str_is(&name, "table") {
                        if !doc.type_url.as_str().is_empty() {
                            return Err(
                                PxfError::new(self.current.pos, owned("@table cannot coexist with @type")),
                            );
                        }
                        let t = self.dataset_step("@table", false)?;
                        doc.tables.push(t);
            assert(doc.tables@.drop_last() =~= old(doc).tables@);
                        proof {
                            assert forall|x: int| 0 <= x < doc.tables@.len() implies dataset_ok(
                                #[trigger] doc.tables@[x],
                                lim,
                            ) by {
                                if x < doc.tables@.len() - 1 {
                                    assert(doc.tables@[x] == old(doc).tables@[x]);
                                }
                            }
                        }
                    } else if is_future_reserved_directive(name.as_str()) {
                        let m = cat3("directive @", name.as_str(), " is spec-reserved");
                        return Err(PxfError::new(self.current.pos, m));
                    } else {
                        let d = self.directive_step(name)?;
                        doc.directives.push(d);
            assert(doc.directives@.drop_last() =~= old(doc).directives@);
                        proof {
                            assert forall|x: int| 0 <= x < doc.directives@.len() implies directive_ok(
                                #[trigger] doc.directives@[x],
                            ) by {
                                if x < doc.directives@.len() - 1 {
                                    assert(doc.directives@[x] == old(doc).directives@[x]);
                                }
                            }
                        }
                    }
                    doc.body_offset = self.prev_end;
                    Ok(true)
                },
            }
        }
    }

    /// A top-level entry: `=` assignments and blocks, no `:` form.
    fn top_entry(&mut self) -> (r: Result<Entry, PxfError>)
        requires
            old(self).inv(),
        ensures
            final(self).inv(),
            final(self).lex.source() == old(self).lex.source(),
            final(self).limits == old(self).limits,
            r is Ok ==> final(self).depth == old(self).depth,
            r is Ok ==> final(self).measure() < old(self).measure(),
            r matches Ok(e) ==> entry_ok(e, old(self).room(), false, old(self).limits),
            r matches Ok(e) ==> entry_tree(
                old(self).lex.source(),
                old(self).tok(),
                old(self).room(),
                false,
                old(self).limits,
                e,
            ) == Some(final(self).tok()),
            match entry_run(old(self).lex.source(), old(self).cur(), old(self).room(), false, old(self).limits) {
                Some(w) => r is Ok && final(self).cur() == w,
                None => r is Err,
            },
    {
        self.parse_entry(false)
    }

    #[verifier::rlimit(80)]
    fn parse_document(&mut self) -> (r: Result<Document, PxfError>)
        requires
            old(self).inv(),
            old(self).depth == 0,
            old(self).reads(0),
            old(self).current.kind != TokenKind::Eof ==> old(self).cur_end > 0,
        ensures
            r is Ok <==> document_reads(old(self).lex.source(), old(self).limits),
            r matches Ok(doc) ==> document_ok(doc, old(self).limits) && doc.body_offset <= old(
                self,
            ).lex.source().len(),
            r matches Ok(doc) ==> document_tree(old(self).lex.source(), old(self).limits, doc),
            r matches Ok(doc) ==> head_flags(old(self).lex.source(), old(self).limits, doc),
    {
        let leading_comments = self.flush_comments();
        let mut doc = Document {
            type_url: String::new(),
            directives: Vec::new(),
            datasets: Vec::new(),
            tables: Vec::new(),
            protos: Vec::new(),
            body_offset: 0,
            entries: Vec::new(),
            leading_comments,
        };
        let ghost lim = old(self).limits;
        let ghost src = old(self).lex.source();
        let ghost mut i: int = 0;
        proof {
            assert forall|
                a: Seq<Directive>,
                bb: Seq<DatasetDirective>,
                c: Seq<DatasetDirective>,
                d: Seq<ProtoDirective>,
            | #[trigger]
                header_tree(
                    src,
                    0,
                    false,
                    false,
                    false,
                    Seq::<char>::empty(),
                    doc.directives@ + a,
                    doc.datasets@ + bb,
                    doc.tables@ + c,
                    doc.protos@ + d,
                    lim,
                ) == header_tree(src, i, false, false, false, doc.type_url@, a, bb, c, d, lim) by {
                assert(doc.directives@ + a =~= a);
                assert(doc.datasets@ + bb =~= bb);
                assert(doc.tables@ + c =~= c);
                assert(doc.protos@ + d =~= d);
                assert(doc.type_url@ =~= Seq::<char>::empty());
            }
        }
        loop
            invariant
                forall|
                    a: Seq<Directive>,
                    bb: Seq<DatasetDirective>,
                    c: Seq<DatasetDirective>,
                    d: Seq<ProtoDirective>,
                | #[trigger]
                    header_tree(
                        src,
                        0,
                        false,
                        false,
                        false,
                        Seq::<char>::empty(),
                        doc.directives@ + a,
                        doc.datasets@ + bb,
                        doc.tables@ + c,
                        doc.protos@ + d,
                        lim,
                    ) == header_tree(
                        src,
                        i,
                        doc.type_url@.len() > 0,
                        doc.tables@.len() > 0,
                        doc.datasets@.len() > 0,
                        doc.type_url@,
                        a,
                        bb,
                        c,
                        d,
                        lim,
                    ),
                0 <= i,
                self.reads(i),
                self.current.kind != TokenKind::Eof ==> self.cur_end > i,
                src == old(self).lex.source(),
                lim == old(self).limits,
                header_run(src, 0, false, false, false, lim) == header_run(
                    src,
                    i,
                    doc.type_url@.len() > 0,
                    doc.tables@.len() > 0,
                    doc.datasets@.len() > 0,
                    lim,
                ),
                self.inv(),
                self.lex.source() == src,
                self.limits == lim,
                self.depth == 0,
                doc.body_offset <= self.lex.source().len(),
                head_ok(doc, lim),
            ensures
                header_run(src, 0, false, false, false, lim) == Some(
                    (i, doc.type_url@.len() > 0, doc.tables@.len() > 0, doc.datasets@.len() > 0),
                ),
                header_tree(
                    src,
                    0,
                    false,
                    false,
                    false,
                    Seq::<char>::empty(),
                    doc.directives@,
                    doc.datasets@,
                    doc.tables@,
                    doc.protos@,
                    lim,
                ) == Some((i, doc.type_url@)),
            decreases self.measure(),
        {
            let ghost f = (doc.type_url@.len() > 0, doc.tables@.len() > 0, doc.datasets@.len() > 0);
            let ghost i0 = i;
            let ghost doc0 = doc;
            let more = match self.head_step(&mut doc, Ghost(i)) {
                Ok(m) => m,
                Err(err) => {
                    assert(header_run(src, i0, f.0, f.1, f.2, lim) is None);
                    return Err(err);
                },
            };
            if !more {
                proof {
                    let e0 = Seq::<Directive>::empty();
                    let e1 = Seq::<DatasetDirective>::empty();
                    let e3 = Seq::<ProtoDirective>::empty();
                    assert(doc.directives@ + e0 =~= doc.directives@);
                    assert(doc.datasets@ + e1 =~= doc.datasets@);
                    assert(doc.tables@ + e1 =~= doc.tables@);
                    assert(doc.protos@ + e3 =~= doc.protos@);
                    assert(header_tree(src, i, f.0, f.1, f.2, doc.type_url@, e0, e1, e1, e3, lim)
                        == Some((i, doc.type_url@))) by {
                        reveal(header_tree);
                    }
                    assert(header_tree(
                        src,
                        0,
                        false,
                        false,
                        false,
                        Seq::<char>::empty(),
                        doc.directives@ + e0,
                        doc.datasets@ + e1,
                        doc.tables@ + e1,
                        doc.protos@ + e3,
                        lim,
                    ) == header_tree(src, i, f.0, f.1, f.2, doc.type_url@, e0, e1, e1, e3, lim));
                }
                break ;
            }
            proof {
                i = header_step(src, i0, f.0, f.1, f.2, lim)->Some_0->Some_0.0;
                if i > src.len() {
                    lemma_sig_past_end(src, i);
                }
                assert(header_run(src, i0, f.0, f.1, f.2, lim) == header_run(
                    src,
                    i,
                    doc.type_url@.len() > 0,
                    doc.tables@.len() > 0,
                    doc.datasets@.len() > 0,
                    lim,
                ));
                lemma_header_loop_step(
                    src,
                    i0,
                    i,
                    f.0,
                    f.1,
                    f.2,
                    lim,
                    doc0,
                    doc,
                    doc.type_url@.len() > 0,
                    doc.tables@.len() > 0,
                    doc.datasets@.len() > 0,
                );
            }
        }
        proof {
            assert(self.cur() == sig(src, i).0);
        }
        if self.current.kind != TokenKind::Eof {
            if doc.tables.len() > 0 {
                return Err(
                    PxfError::new(
                        self.current.pos,
                        owned("@table cannot coexist with top-level field entries"),
                    ),
                );
            }
            if doc.datasets.len() > 0 {
                return Err(
                    PxfError::new(
                        self.current.pos,
                        owned("@dataset cannot coexist with top-level field entries"),
                    ),
                );
            }
            doc.entries = self.parse_entries()?;
        }
        proof {
            if sig(src, i).0.0 == TokenKind::Eof {
                assert(doc.entries@.len() == 0);
            }
        }
        Ok(doc)
    }

    /// The top-level entries of a document, up to the end of the input.
    fn parse_entries(&mut self) -> (r: Result<Vec<Entry>, PxfError>)
        requires
            old(self).inv(),
            old(self).depth == 0,
        ensures
            entries_run(
                old(self).lex.source(),
                old(self).cur(),
                old(self).limits.max_nesting_depth as int,
                old(self).limits,
            ) <==> r is Ok,
            r matches Ok(es) ==> entries_ok(
                es@,
                old(self).limits.max_nesting_depth as int,
                false,
                old(self).limits,
            ),
            r matches Ok(es) ==> entries_tree(
                old(self).lex.source(),
                old(self).tok(),
                old(self).limits.max_nesting_depth as int,
                old(self).limits,
                es@,
            ),
    {
        let ghost src = old(self).lex.source();
        let ghost lim = old(self).limits;
        let ghost t0 = old(self).cur();
        let ghost first = old(self).tok();
        let ghost dm = lim.max_nesting_depth as int;
        let mut entries: Vec<Entry> = Vec::new();
        proof {
            assert forall|rest: Seq<Entry>| entries_tree(src, first, dm, lim, entries@ + rest)
                == entries_tree(src, self.tok(), dm, lim, rest) by {
                assert(entries@ + rest =~= rest);
            }
        }
        while self.current.kind != TokenKind::Eof
            invariant
                t0 == old(self).cur(),
                first == old(self).tok(),
                dm == lim.max_nesting_depth as int,
                forall|rest: Seq<Entry>| #[trigger]
                    entries_tree(src, first, dm, lim, entries@ + rest) == entries_tree(
                        src,
                        self.tok(),
                        dm,
                        lim,
                        rest,
                    ),
                src == old(self).lex.source(),
                lim == old(self).limits,
                entries_run(src, t0, lim.max_nesting_depth as int, lim) == entries_run(
                    src,
                    self.cur(),
                    lim.max_nesting_depth as int,
                    lim,
                ),
                self.inv(),
                self.lex.source() == src,
                self.limits == lim,
                self.depth == 0,
                entries_ok(entries@, lim.max_nesting_depth as int, false, lim),
            decreases self.measure(),
        {
            let ghost u = self.cur();
            let ghost ut = self.tok();
            let ghost before = entries@;
            let e = match self.top_entry() {
                Ok(e) => e,
                Err(err) => {
                    assert(!entries_run(src, u, lim.max_nesting_depth as int, lim));
                    return Err(err);
                },
            };
            entries.push(e);
            proof {
                let w = self.cur();
                assert(w.0 != TokenKind::Eof ==> u.2 < w.2);
                assert forall|rest: Seq<Entry>| #[trigger]
                    entries_tree(src, first, dm, lim, entries@ + rest) == entries_tree(
                        src,
                        self.tok(),
                        dm,
                        lim,
                        rest,
                    ) by {
                    let r2 = seq![e] + rest;
                    assert(entries@ + rest =~= before + r2);
                    assert(r2[0] == e);
                    assert(r2.drop_first() =~= rest);
                    assert(entries_tree(src, ut, dm, lim, r2) == entries_tree(src, self.tok(), dm, lim, rest));
                }
                assert(entries_ok(entries@, lim.max_nesting_depth as int, false, lim)) by {
                    assert forall|x: int| 0 <= x < entries@.len() implies entry_ok(
                        #[trigger] entries@[x],
                        lim.max_nesting_depth as int,
                        false,
                        lim,
                    ) by {
                        if x < entries@.len() - 1 {
                            assert(entries@[x] == entries@.drop_last()[x]);
                        }
                    }
                }
            }
        }
        proof {
            assert(entries@ + Seq::<Entry>::empty() =~= entries@);
            assert(entries_tree(src, self.tok(), dm, lim, Seq::<Entry>::empty()));
        }
        Ok(entries)
    }

    fn leave(&mut self)
        requires
            old(self).depth > 0,
            old(self).inv(),
        ensures
            final(self).cur_start == old(self).cur_start,
            final(self).lex == old(self).lex,
            final(self).current == old(self).current,
            final(self).cur_end == old(self).cur_end,
            final(self).prev_end == old(self).prev_end,
            final(self).limits == old(self).limits,
            final(self).depth == old(self).depth - 1,
            final(self).inv(),
    {
        self.depth = self.depth - 1;
    }
}

/// The limits of [`parse`].
pub open spec fn default_limits() -> Limits {
    Limits {
        max_message_size: crate::pxf::limits::MAX_MESSAGE_SIZE,
        max_nesting_depth: crate::pxf::limits::MAX_NESTING_DEPTH,
        max_numeric_literal_digits: crate::pxf::limits::MAX_NUMERIC_LITERAL_DIGITS,
        max_bytes_literal_length: crate::pxf::limits::MAX_BYTES_LITERAL_LENGTH,
        max_repeated_count: crate::pxf::limits::MAX_REPEATED_COUNT,
    }
}

/// Where the error for an input past the size limit points: its start.
pub open spec fn start_position() -> Position {
    Position { line: 1, column: 1, offset: 0 }
}

/// Parses a PXF document under `limits`. Input longer than
/// `max_message_size` is refused before it is read; every `{` and `[`
/// counts toward `max_nesting_depth`; a bytes literal may decode to at
/// most `max_bytes_literal_length` bytes.
pub fn parse_with_limits(input: &str, limits: Limits) -> (r: Result<Document, PxfError>)
    requires
        input.spec_bytes().len() < usize::MAX,
    ensures
        input.spec_bytes().len() > limits.max_message_size ==> r == Err::<Document, PxfError>(
            PxfError {
                pos: start_position(),
                msg: r->Err_0.msg,
            },
        ) && r->Err_0.msg@ == message_size_error(
            input.spec_bytes().len() as nat,
            limits.max_message_size as nat,
        ),
        r matches Ok(doc) ==> document_ok(doc, limits) && doc.body_offset
            <= input.spec_bytes().len(),
        input.spec_bytes().len() <= limits.max_message_size ==> (r is Ok <==> document_reads(
            input.spec_bytes(),
            limits,
        )),
        r matches Ok(doc) ==> document_tree(input.spec_bytes(), limits, doc),
        r matches Ok(doc) ==> head_flags(input.spec_bytes(), limits, doc),
{
    match limits.check_message_size(input.as_bytes().len()) {
        Err(m) => {
            return Err(PxfError::new(Position::new(1, 1), m));
        },
        Ok(()) => {},
    }
    let mut p = Parser::new(input, limits);
    p.parse_document()
}

/// Parses a PXF document under the default limits.
pub fn parse(input: &str) -> (r: Result<Document, PxfError>)
    ensures
        input.spec_bytes().len() > crate::pxf::limits::MAX_MESSAGE_SIZE ==> r is Err
            && r->Err_0.pos == start_position() && r->Err_0.msg@ == message_size_error(
            input.spec_bytes().len() as nat,
            crate::pxf::limits::MAX_MESSAGE_SIZE as nat,
        ),
        r matches Ok(doc) ==> document_ok(doc, default_limits()) && doc.body_offset
            <= input.spec_bytes().len(),
        input.spec_bytes().len() <= crate::pxf::limits::MAX_MESSAGE_SIZE ==> (r is Ok
            <==> document_reads(input.spec_bytes(), default_limits())),
        r matches Ok(doc) ==> document_tree(input.spec_bytes(), default_limits(), doc),
        r matches Ok(doc) ==> head_flags(input.spec_bytes(), default_limits(), doc),
{
    let limits = Limits::default();
    let n = input.as_bytes().len();
    if n > limits.max_message_size {
        return match limits.check_message_size(n) {
            Err(m) => Err(PxfError::new(Position::new(1, 1), m)),
            Ok(()) => Err(PxfError::new(Position::new(1, 1), String::new())),
        };
    }
    parse_with_limits(input, limits)
}

} // verus!
