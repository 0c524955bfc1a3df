//! Decoding a PXF document against a schema: the document is parsed, its
//! leading directives with it, and the fields of its body are decoded from
//! the tokens that follow the directives.
use vstd::prelude::*;
use vstd::string::StringSliceAdditionalSpecFns;

use crate::pxf::ast::{DatasetRow, Document, StringVal, Value};
use crate::pxf::base64::{base64_encode_spec, encode_base64};
use vstd::utf8::encode_utf8;
use crate::pxf::decode::{
    decode_fields, default_value, default_value_of, ends_with_eof, fields_spec, log_model, quote,
    schema_ok, value_model, FieldShape, FieldValue, ValueModel, DataModel, FieldType,
    Node, NodeData, NodeModel, Schema,
};
use vstd::string::StrSliceExecFns;
use crate::pxf::result::Presence;
use crate::pxf::errors::PxfError;
use crate::pxf::lexer::{escaped_by, escapes_to, lemma_escaped_by_push, lemma_escaped_string_lexes, lexes, string_at, token_at, Lexer};
use crate::pxf::limits::MAX_MESSAGE_SIZE;
use crate::pxf::parser::{default_limits, document_reads, document_tree, parse};
use crate::pxf::token::{Position, Token, TokenKind};

verus! {

/// Options of a decoding call.
#[derive(Debug, Clone, Copy, Default)]
pub struct UnmarshalOptions {
    /// Skip fields the schema does not declare instead of failing.
    pub discard_unknown: bool,
}

/// A decoded document: its parsed form (directives included) and the
/// records of the fields of its body.
#[derive(Debug)]
pub struct Decoded {
    pub document: Document,
    pub nodes: Vec<Node>,
}

/// The tokens that matter to decoding: all but comments and line ends.
pub open spec fn significant(s: Seq<Token>) -> Seq<Token>
    decreases s.len(),
{
    if s.len() == 0 {
        Seq::empty()
    } else if s.last().kind == TokenKind::Comment || s.last().kind == TokenKind::Newline {
        significant(s.drop_last())
    } else {
        significant(s.drop_last()).push(s.last())
    }
}

/// What the lexer yields ends with its one `EOF`.
proof fn lemma_lexes_ends(s: Seq<u8>, i: int, toks: Seq<Token>)
    requires
        lexes(s, i, toks),
    ensures
        ends_with_eof(toks),
    decreases toks.len(),
{
    let st = crate::pxf::lexer::scan(s, i, crate::pxf::lexer::ByteClass::Space);
    let r = crate::pxf::lexer::token_at(s, st);
    if r.0 != TokenKind::Eof {
        lemma_lexes_ends(s, r.2, toks.drop_first());
        let t = toks.drop_first();
        assert(toks.last() == t.last());
        assert forall|j: int| 0 <= j < toks.len() - 1 implies (#[trigger] toks[j]).kind
            != TokenKind::Eof by {
            if j > 0 {
                assert(toks[j] == t[j - 1]);
            }
        }
    }
}

proof fn lemma_significant_shape(s: Seq<Token>)
    ensures
        forall|j: int| 0 <= j < significant(s).len() ==> s.contains(#[trigger] significant(s)[j]),
        s.len() > 0 && s.last().kind == TokenKind::Eof ==> significant(s).len() > 0
            && significant(s).last() == s.last(),
    decreases s.len(),
{
    if s.len() > 0 {
        lemma_significant_shape(s.drop_last());
        let p = significant(s.drop_last());
        assert forall|j: int| 0 <= j < significant(s).len() implies s.contains(
            #[trigger] significant(s)[j],
        ) by {
            if j < p.len() {
                assert(significant(s)[j] == p[j]);
                let k = choose|k: int| 0 <= k < s.drop_last().len() && s.drop_last()[k] == p[j];
                assert(s[k] == p[j]);
            } else {
                assert(significant(s)[j] == s.last());
                assert(s[s.len() - 1] == s.last());
            }
        }
    }
}

proof fn lemma_significant_eof(s: Seq<Token>)
    requires
        ends_with_eof(s),
    ensures
        ends_with_eof(significant(s)),
{
    lemma_significant_shape(s);
    let g = significant(s);
    let n = g.len();
    assert forall|j: int| 0 <= j < n - 1 implies (#[trigger] g[j]).kind != TokenKind::Eof by {
        lemma_significant_prefix_no_eof(s, j);
    }
}

/// Every token of `significant(s)` but its last is one of `s` before its last.
proof fn lemma_significant_prefix_no_eof(s: Seq<Token>, j: int)
    requires
        ends_with_eof(s),
        0 <= j < significant(s).len() - 1,
    ensures
        significant(s)[j].kind != TokenKind::Eof,
{
    lemma_significant_shape(s);
    let p = s.drop_last();
    lemma_significant_shape(p);
    assert(significant(s) == significant(p).push(s.last()));
    assert(significant(s)[j] == significant(p)[j]);
    let k = choose|k: int| 0 <= k < p.len() && p[k] == significant(p)[j];
    assert(p[k] == s[k]);
}

fn significant_tokens(v: &Vec<Token>) -> (r: Vec<Token>)
    ensures
        r@ == significant(v@),
{
    let mut out: Vec<Token> = Vec::new();
    let mut i: usize = 0;
    let n = v.len();
    while i < n
        invariant
            n == v@.len(),
            i <= n,
            out@ == significant(v@.subrange(0, i as int)),
        decreases n - i,
    {
        let t = &v[i];
        let ghost pre = v@.subrange(0, i as int);
        assert(v@.subrange(0, i + 1).drop_last() =~= pre);
        assert(v@.subrange(0, i + 1).last() == *t);
        if !(t.kind == TokenKind::Comment || t.kind == TokenKind::Newline) {
            out.push(Token::new(t.kind, t.value.clone(), t.pos));
        }
        i = i + 1;
    }
    assert(v@.subrange(0, n as int) =~= v@);
    out
}

/// What decoding the text `b` against message type `root` of `sc` may
/// give: an error for text past the size limit or that does not parse; a
/// parsed document with the records [`fields_spec`] gives for the tokens
/// after its directives; or the error it gives there.
pub open spec fn decoded_from(b: Seq<u8>, sc: Schema, root: int, discard: bool, r: Result<Decoded, PxfError>) -> bool {
    &&& b.len() > MAX_MESSAGE_SIZE ==> r is Err
    &&& !document_reads(b, default_limits()) ==> r is Err
    &&& r matches Ok(d) ==> document_tree(b, default_limits(), d.document) && d.document.body_offset
        <= b.len() && exists|toks: Seq<Token>|
        lexes(b, d.document.body_offset as int, toks) && ((#[trigger] fields_spec(
            sc,
            root,
            significant(toks),
            0,
            0,
            false,
            discard,
            None,
            Seq::empty(),
            Seq::empty(),
            Seq::empty(),
        )) matches Ok((l, _)) && l == log_model(d.nodes@))
    &&& r matches Err(e) ==> b.len() > MAX_MESSAGE_SIZE || !document_reads(b, default_limits())
        || exists|doc: Document, toks: Seq<Token>|
        #[trigger] document_tree(b, default_limits(), doc) && #[trigger] lexes(b, doc.body_offset as int, toks)
            && fields_spec(
            sc,
            root,
            significant(toks),
            0,
            0,
            false,
            discard,
            None,
            Seq::empty(),
            Seq::empty(),
            Seq::empty(),
        ) == Err::<(Seq<NodeModel>, int), (Position, Seq<char>)>((e.pos, e.msg@))
}

/// Decode `data` against message type `root` of `sc`: the document is
/// parsed (directives included, under the default limits), then the fields
/// of its body, from the first token after its directives, are decoded as
/// [`decode_fields`] decodes them at the top level.
#[verifier::rlimit(40)]
pub fn unmarshal(data: &str, sc: &Schema, root: usize, opts: UnmarshalOptions) -> (r: Result<Decoded, PxfError>)
    requires
        schema_ok(*sc),
        root < sc.messages@.len(),
    ensures
        decoded_from(data.spec_bytes(), *sc, root as int, opts.discard_unknown, r),
{
    let document = match parse(data) {
        Ok(d) => d,
        Err(e) => {
            return Err(e);
        },
    };
    let mut lex = Lexer::new(data);
    lex.skip_to(document.body_offset);
    let all = lex.collect_tokens();
    let toks = significant_tokens(&all);
    proof {
        lemma_lexes_ends(data.spec_bytes(), document.body_offset as int, all@);
        lemma_significant_eof(all@);
    }
    let mut nodes: Vec<Node> = Vec::new();
    assert(log_model(nodes@) =~= Seq::<NodeModel>::empty());
    let top = String::new();
    assert(top@ =~= Seq::<char>::empty());
    assert(nodes@.len() == 0);
    let _n = toks.len();
    match decode_fields(sc, root, toks.as_slice(), 0, 0, false, opts.discard_unknown, None, top.as_str(), &mut nodes) {
        Ok(_) => Ok(Decoded { document, nodes }),
        Err(e) => Err(e),
    }
}

/// The paths the records mark present: every record but the elements of a
/// repeated message field.
pub open spec fn marked_paths(log: Seq<NodeModel>) -> Set<Seq<char>> {
    Set::new(|p: Seq<char>| exists|j: int| 0 <= j < log.len() && !(log[j].data is Element) && log[j].path == p)
}

/// The paths the records mark `null`.
pub open spec fn null_paths(log: Seq<NodeModel>) -> Set<Seq<char>> {
    Set::new(|p: Seq<char>| exists|j: int| 0 <= j < log.len() && log[j].data is Null && log[j].path == p)
}

/// The presence the records of a decoding give: each field set is present
/// at its path, a field written `null` present and null; the directives
/// are added after, in the order given.
pub fn presence_of(nodes: &Vec<Node>, doc: Document) -> (p: Presence)
    ensures
        p.present_paths() == marked_paths(log_model(nodes@)),
        p.null_set() == null_paths(log_model(nodes@)),
        p.directives_view() == doc.directives@,
        p.datasets_view() == doc.datasets@,
        p.protos_view() == doc.protos@,
{
    let mut p = Presence::new();
    let mut i: usize = 0;
    let ghost log = log_model(nodes@);
    while i < nodes.len()
        invariant
            i <= nodes@.len(),
            log == log_model(nodes@),
            p.present_paths() == marked_paths(log.subrange(0, i as int)),
            p.null_set() == null_paths(log.subrange(0, i as int)),
            p.directives_view().len() == 0,
            p.datasets_view().len() == 0,
            p.protos_view().len() == 0,
        decreases nodes@.len() - i,
    {
        let n = &nodes[i];
        let ghost pre = log.subrange(0, i as int);
        let ghost nxt = log.subrange(0, i + 1);
        assert(nxt =~= pre.push(log[i as int]));
        assert(log[i as int] == crate::pxf::decode::node_model(*n));
        match n.data {
            NodeData::Null => {
                p.mark_null(n.path.as_str());
            },
            NodeData::Element => {},
            _ => {
                p.mark_present(n.path.as_str());
            },
        }
        proof {
            assert(marked_paths(nxt) =~= if log[i as int].data is Element {
                marked_paths(pre)
            } else {
                marked_paths(pre).insert(log[i as int].path)
            }) by {
                assert forall|q: Seq<char>| marked_paths(nxt).contains(q) implies (if log[i as int].data is Element {
                    marked_paths(pre)
                } else {
                    marked_paths(pre).insert(log[i as int].path)
                }).contains(q) by {
                    let j = choose|j: int| 0 <= j < nxt.len() && !(nxt[j].data is Element) && nxt[j].path == q;
                    if j < i {
                        assert(pre[j] == nxt[j]);
                    }
                }
                assert forall|q: Seq<char>| (if log[i as int].data is Element {
                    marked_paths(pre)
                } else {
                    marked_paths(pre).insert(log[i as int].path)
                }).contains(q) implies marked_paths(nxt).contains(q) by {
                    if marked_paths(pre).contains(q) {
                        let j = choose|j: int| 0 <= j < pre.len() && !(pre[j].data is Element) && pre[j].path == q;
                        assert(nxt[j] == pre[j]);
                    } else {
                        assert(nxt[i as int] == log[i as int]);
                    }
                }
            }
            assert(null_paths(nxt) =~= if log[i as int].data is Null {
                null_paths(pre).insert(log[i as int].path)
            } else {
                null_paths(pre)
            }) by {
                assert forall|q: Seq<char>| null_paths(nxt).contains(q) implies (if log[i as int].data is Null {
                    null_paths(pre).insert(log[i as int].path)
                } else {
                    null_paths(pre)
                }).contains(q) by {
                    let j = choose|j: int| 0 <= j < nxt.len() && nxt[j].data is Null && nxt[j].path == q;
                    if j < i {
                        assert(pre[j] == nxt[j]);
                    }
                }
                assert forall|q: Seq<char>| (if log[i as int].data is Null {
                    null_paths(pre).insert(log[i as int].path)
                } else {
                    null_paths(pre)
                }).contains(q) implies null_paths(nxt).contains(q) by {
                    if null_paths(pre).contains(q) {
                        let j = choose|j: int| 0 <= j < pre.len() && pre[j].data is Null && pre[j].path == q;
                        assert(nxt[j] == pre[j]);
                    } else {
                        assert(nxt[i as int] == log[i as int]);
                    }
                }
            }
        }
        i = i + 1;
    }
    proof {
        assert(log.subrange(0, i as int) =~= log);
    }
    let ghost d0 = doc.directives@;
    let ghost t0 = doc.datasets@;
    let ghost r0 = doc.protos@;
    let mut doc = doc;
    let mut ds = reversed(&mut doc.directives);
    let mut k: usize = 0;
    let m = ds.len();
    while k < m
        invariant
            m == d0.len(),
            k <= m,
            ds@.len() == m - k,
            forall|j: int| 0 <= j < m - k ==> ds@[j] == d0[m - 1 - j],
            p.directives_view() == d0.subrange(0, k as int),
            p.present_paths() == marked_paths(log),
            p.null_set() == null_paths(log),
            p.datasets_view().len() == 0,
            p.protos_view().len() == 0,
        decreases m - k,
    {
        let d = ds.pop().unwrap();
        assert(d == d0[k as int]);
        p.add_directive(d);
        assert(p.directives_view() =~= d0.subrange(0, k + 1));
        k = k + 1;
    }
    let mut ts = reversed(&mut doc.datasets);
    let mut k: usize = 0;
    let m = ts.len();
    while k < m
        invariant
            m == t0.len(),
            k <= m,
            ts@.len() == m - k,
            forall|j: int| 0 <= j < m - k ==> ts@[j] == t0[m - 1 - j],
            p.datasets_view() == t0.subrange(0, k as int),
            p.directives_view() == d0,
            p.present_paths() == marked_paths(log),
            p.null_set() == null_paths(log),
            p.protos_view().len() == 0,
        decreases m - k,
    {
        let d = ts.pop().unwrap();
        assert(d == t0[k as int]);
        p.add_dataset(d);
        assert(p.datasets_view() =~= t0.subrange(0, k + 1));
        k = k + 1;
    }
    let mut rs = reversed(&mut doc.protos);
    let mut k: usize = 0;
    let m = rs.len();
    while k < m
        invariant
            m == r0.len(),
            k <= m,
            rs@.len() == m - k,
            forall|j: int| 0 <= j < m - k ==> rs@[j] == r0[m - 1 - j],
            p.protos_view() == r0.subrange(0, k as int),
            p.datasets_view() == t0,
            p.directives_view() == d0,
            p.present_paths() == marked_paths(log),
            p.null_set() == null_paths(log),
        decreases m - k,
    {
        let d = rs.pop().unwrap();
        assert(d == r0[k as int]);
        p.add_proto(d);
        assert(p.protos_view() =~= r0.subrange(0, k + 1));
        k = k + 1;
    }
    assert(d0.subrange(0, d0.len() as int) =~= d0);
    assert(t0.subrange(0, t0.len() as int) =~= t0);
    assert(r0.subrange(0, r0.len() as int) =~= r0);
    p
}

/// The items of `v`, taken out of it, last first.
fn reversed<T>(v: &mut Vec<T>) -> (r: Vec<T>)
    ensures
        r@.len() == old(v)@.len(),
        forall|j: int| 0 <= j < r@.len() ==> r@[j] == old(v)@[old(v)@.len() - 1 - j],
{
    let mut out: Vec<T> = Vec::new();
    let ghost s = v@;
    while v.len() > 0
        invariant
            v@ == s.subrange(0, v@.len() as int),
            out@.len() == s.len() - v@.len(),
            forall|j: int| 0 <= j < out@.len() ==> out@[j] == s[s.len() - 1 - j],
        decreases v@.len(),
    {
        let x = v.pop().unwrap();
        out.push(x);
    }
    out
}

/// What the walk over the fields left out finds, from field `j` of message
/// type `mi` at path prefix `prefix`, going into each message field that
/// is set and not `null`, in declaration order: the defaults applied so far
/// (`acc`, each a path and its value) with those of the fields left out
/// that carry one, or the message of the first error, a required field
/// left out or a default that does not read. `bound` is at least the
/// length of every present path.
pub open spec fn post_check(
    sc: Schema,
    mi: int,
    present: Set<Seq<char>>,
    nulls: Set<Seq<char>>,
    prefix: Seq<char>,
    bound: nat,
    j: int,
    acc: Seq<(Seq<char>, ValueModel)>,
) -> Result<Seq<(Seq<char>, ValueModel)>, Seq<char>>
    decreases bound + 1 - prefix.len(), sc.messages@[mi].fields@.len() - j,
{
    if mi < 0 || mi >= sc.messages@.len() || j < 0 || j >= sc.messages@[mi].fields@.len() || prefix.len() > bound + 1 {
        Ok(acc)
    } else {
        let f = sc.messages@[mi].fields@[j];
        let path = prefix + f.name@;
        if !present.contains(path) {
            if f.required {
                Err("required field "@ + quote(path) + " is absent"@)
            } else {
                match f.default {
                    None => post_check(sc, mi, present, nulls, prefix, bound, j + 1, acc),
                    Some(d) => match f.kind {
                        FieldType::Value(FieldShape::Single(k)) => match default_value(k, d@, f.name@) {
                            Ok(v) => post_check(sc, mi, present, nulls, prefix, bound, j + 1, acc.push((path, v))),
                            Err(m) => Err(m),
                        },
                        FieldType::Message(sub) => Err(message_default_error(sc, sub as int, f.name@)),
                        FieldType::Value(FieldShape::MapOf(_, _)) => Err(
                            "default values not supported for map field "@ + quote(f.name@),
                        ),
                        _ => Err("default values not supported for repeated field "@ + quote(f.name@)),
                    },
                }
            }
        } else if nulls.contains(path) {
            post_check(sc, mi, present, nulls, prefix, bound, j + 1, acc)
        } else {
            match f.kind {
                FieldType::Message(sub) => if path.len() > bound {
                    post_check(sc, mi, present, nulls, prefix, bound, j + 1, acc)
                } else {
                    match post_check(sc, sub as int, present, nulls, path + seq!['.'], bound, 0, acc) {
                        Ok(a2) => post_check(sc, mi, present, nulls, prefix, bound, j + 1, a2),
                        Err(m) => Err(m),
                    }
                },
                _ => post_check(sc, mi, present, nulls, prefix, bound, j + 1, acc),
            }
        }
    }
}

pub open spec fn message_default_error(sc: Schema, sub: int, field: Seq<char>) -> Seq<char> {
    "default values not supported for message type "@ + sc.messages@[sub].full_name@ + " (field "@
        + quote(field) + ")"@
}

pub open spec fn defaults_model(v: Seq<(String, FieldValue)>) -> Seq<(Seq<char>, ValueModel)> {
    Seq::new(v.len(), |j: int| (v[j].0@, value_model(v[j].1)))
}

fn message_default_text(sc: &Schema, sub: usize, field: &str) -> (r: String)
    requires
        sub < sc.messages@.len(),
    ensures
        r@ == message_default_error(*sc, sub as int, field@),
{
    let mut m = crate::text::owned("default values not supported for message type ");
    crate::text::push_str(&mut m, sc.messages[sub].full_name.as_str());
    crate::text::push_str(&mut m, " (field ");
    crate::text::push_str(&mut m, "\"");
    crate::text::push_str(&mut m, field);
    crate::text::push_str(&mut m, "\"");
    crate::text::push_str(&mut m, ")");
    assert(m@ =~= message_default_error(*sc, sub as int, field@));
    m
}

/// The walk of [`post_check`]: the defaults found are appended to `acc`.
fn check_fields(
    sc: &Schema,
    mi: usize,
    p: &Presence,
    prefix: &str,
    bound: usize,
    j: usize,
    acc: &mut Vec<(String, FieldValue)>,
) -> (r: Result<(), String>)
    requires
        schema_ok(*sc),
        mi < sc.messages@.len(),
        j <= sc.messages@[mi as int].fields@.len(),
        prefix@.len() <= bound + 1,
    ensures
        match post_check(*sc, mi as int, p.present_paths(), p.null_set(), prefix@, bound as nat, j as int, defaults_model(old(acc)@)) {
            Ok(a) => r is Ok && defaults_model(final(acc)@) == a,
            Err(m) => r matches Err(e) && e@ == m,
        },
    decreases bound + 1 - prefix@.len(), sc.messages@[mi as int].fields@.len() - j,
{
    let fs = &sc.messages[mi].fields;
    if j >= fs.len() {
        return Ok(());
    }
    let f = &fs[j];
    assert(sc.messages@[mi as int].fields@[j as int] == *f);
    let path = crate::text::concat(prefix, f.name.as_str());
    if p.is_absent(path.as_str()) {
        if f.required {
            let mut m = crate::text::owned("required field ");
            crate::text::push_str(&mut m, "\"");
            crate::text::push_str(&mut m, path.as_str());
            crate::text::push_str(&mut m, "\"");
            crate::text::push_str(&mut m, " is absent");
            assert(m@ =~= "required field "@ + quote(path@) + " is absent"@);
            return Err(m);
        }
        match &f.default {
            None => {
                return check_fields(sc, mi, p, prefix, bound, j + 1, acc);
            },
            Some(d) => match &f.kind {
                FieldType::Value(FieldShape::Single(k)) => {
                    match default_value_of(k, d, f.name.as_str()) {
                        Ok(v) => {
                            let ghost vm = value_model(v);
                            let ghost pm = path@;
                            let ghost before = defaults_model(acc@);
                            acc.push((path, v));
                            assert(defaults_model(acc@) =~= before.push((pm, vm)));
                            return check_fields(sc, mi, p, prefix, bound, j + 1, acc);
                        },
                        Err(m) => {
                            return Err(m);
                        },
                    }
                },
                FieldType::Message(sub) => {
                    return Err(message_default_text(sc, *sub, f.name.as_str()));
                },
                FieldType::Value(FieldShape::MapOf(_, _)) => {
                    let mut m = crate::text::owned("default values not supported for map field ");
                    crate::text::push_str(&mut m, "\"");
                    crate::text::push_str(&mut m, f.name.as_str());
                    crate::text::push_str(&mut m, "\"");
                    assert(m@ =~= "default values not supported for map field "@ + quote(f.name@));
                    return Err(m);
                },
                _ => {
                    let mut m = crate::text::owned("default values not supported for repeated field ");
                    crate::text::push_str(&mut m, "\"");
                    crate::text::push_str(&mut m, f.name.as_str());
                    crate::text::push_str(&mut m, "\"");
                    assert(m@ =~= "default values not supported for repeated field "@ + quote(f.name@));
                    return Err(m);
                },
            },
        }
    }
    if p.is_null(path.as_str()) {
        return check_fields(sc, mi, p, prefix, bound, j + 1, acc);
    }
    match &f.kind {
        FieldType::Message(sub) => {
            if path.as_str().unicode_len() > bound {
                return check_fields(sc, mi, p, prefix, bound, j + 1, acc);
            }
            let mut np = path.clone();
            crate::text::push_char(&mut np, '.');
            assert(np@ =~= path@ + seq!['.']);
            match check_fields(sc, *sub, p, np.as_str(), bound, 0, acc) {
                Ok(()) => check_fields(sc, mi, p, prefix, bound, j + 1, acc),
                Err(m) => Err(m),
            }
        },
        _ => check_fields(sc, mi, p, prefix, bound, j + 1, acc),
    }
}

/// The greatest length of a record's path, zero for none.
pub open spec fn path_limit(log: Seq<NodeModel>) -> nat
    decreases log.len(),
{
    if log.len() == 0 {
        0
    } else {
        let m = path_limit(log.drop_last());
        if log.last().path.len() > m {
            log.last().path.len()
        } else {
            m
        }
    }
}

fn longest_path(nodes: &Vec<Node>) -> (r: usize)
    ensures
        r == path_limit(log_model(nodes@)),
{
    let mut m: usize = 0;
    let mut i: usize = 0;
    let ghost log = log_model(nodes@);
    assert(log.subrange(0, 0) =~= Seq::<NodeModel>::empty());
    while i < nodes.len()
        invariant
            i <= nodes@.len(),
            log == log_model(nodes@),
            m == path_limit(log.subrange(0, i as int)),
        decreases nodes@.len() - i,
    {
        let l = nodes[i].path.as_str().unicode_len();
        assert(log[i as int] == crate::pxf::decode::node_model(nodes@[i as int]));
        assert(log.subrange(0, i + 1).drop_last() =~= log.subrange(0, i as int));
        if l > m {
            m = l;
        }
        i = i + 1;
    }
    assert(log.subrange(0, i as int) =~= log);
    m
}

/// A decoding with the presence of its paths.
pub struct FullDecoded {
    pub nodes: Vec<Node>,
    pub presence: Presence,
    /// The defaults applied to fields left out: each field's path and the
    /// value of its `(pxf.default)`.
    pub defaults: Vec<(String, FieldValue)>,
}

/// Decode `data` as [`unmarshal`] does, and give the presence of what it
/// set: each field's dotted path present, the `null` ones also null, and
/// the document's directives. Then the fields left out are walked as
/// [`post_check`] says: a required one is an error at the start of the
/// input, one with a `(pxf.default)` gets that value.
pub fn unmarshal_full(data: &str, sc: &Schema, root: usize, opts: UnmarshalOptions) -> (r: Result<FullDecoded, PxfError>)
    requires
        schema_ok(*sc),
        root < sc.messages@.len(),
    ensures
        data.spec_bytes().len() > MAX_MESSAGE_SIZE ==> r is Err,
        !document_reads(data.spec_bytes(), default_limits()) ==> r is Err,
        r matches Ok(d) ==> d.presence.present_paths() == marked_paths(log_model(d.nodes@)),
        r matches Ok(d) ==> d.presence.null_set() == null_paths(log_model(d.nodes@)),
        r matches Ok(d) ==> (exists|doc: Document|
            #[trigger] document_tree(data.spec_bytes(), default_limits(), doc)
            && d.presence.directives_view() == doc.directives@ && d.presence.datasets_view()
            == doc.datasets@ && d.presence.protos_view() == doc.protos@),
        r matches Ok(d) ==> post_check(
            *sc,
            root as int,
            marked_paths(log_model(d.nodes@)),
            null_paths(log_model(d.nodes@)),
            Seq::empty(),
            path_limit(log_model(d.nodes@)),
            0,
            Seq::empty(),
        ) == Ok::<Seq<(Seq<char>, ValueModel)>, Seq<char>>(defaults_model(d.defaults@)),
{
    match unmarshal(data, sc, root, opts) {
        Ok(d) => {
            let Decoded { document, nodes } = d;
            let ghost docg = document;
            let bound = longest_path(&nodes);
            let presence = presence_of(&nodes, document);
            assert(document_tree(data.spec_bytes(), default_limits(), docg));
            let top = String::new();
            assert(top@ =~= Seq::<char>::empty());
            let mut defaults: Vec<(String, FieldValue)> = Vec::new();
            assert(defaults_model(defaults@) =~= Seq::<(Seq<char>, ValueModel)>::empty());
            match check_fields(sc, root, &presence, top.as_str(), bound, 0, &mut defaults) {
                Err(m) => Err(PxfError::new(Position::new(1, 1), m)),
                Ok(()) => Ok(FullDecoded { nodes, presence, defaults }),
            }
        },
        Err(e) => Err(e),
    }
}

// ---------------------------------------------------------------- rows
/// A string cell's characters inside quotes: `"` and `\` escaped.
pub open spec fn escape_cell(s: Seq<char>) -> Seq<char>
    decreases s.len(),
{
    if s.len() == 0 {
        Seq::empty()
    } else if s.last() == '"' || s.last() == '\\' {
        escape_cell(s.drop_last()) + seq!['\\', s.last()]
    } else {
        escape_cell(s.drop_last()).push(s.last())
    }
}

/// A cell written back as the text of a value; `None` for a list or a
/// block, which a row never holds.
pub open spec fn cell_text(v: Value) -> Option<Seq<char>> {
    match v {
        Value::Null(_) => Some("null"@),
        Value::String(x) => Some(seq!['"'] + escape_cell(x.value@) + seq!['"']),
        Value::Int(x) => Some(x.raw@),
        Value::Float(x) => Some(x.raw@),
        Value::Bool(x) => Some(
            if x.value {
                "true"@
            } else {
                "false"@
            },
        ),
        Value::Bytes(x) => Some(
            "b\""@ + base64_encode_spec(x.value@).map_values(|c: u8| c as char) + seq!['"'],
        ),
        Value::Ident(x) => Some(x.name@),
        Value::Timestamp(x) => Some(x.raw@),
        Value::Duration(x) => Some(x.raw@),
        _ => None,
    }
}

/// The document a row stands for: one `column = value` line per cell
/// that is not empty, in column order; `None` when a cell has no text.
pub open spec fn row_document(columns: Seq<String>, cells: Seq<Option<Value>>) -> Option<Seq<char>>
    decreases cells.len(),
{
    if cells.len() == 0 {
        Some(Seq::empty())
    } else {
        match row_document(columns, cells.drop_last()) {
            None => None,
            Some(t) => match cells.last() {
                None => Some(t),
                Some(v) => match cell_text(v) {
                    None => None,
                    Some(c) => Some(t + columns[cells.len() - 1]@ + " = "@ + c + seq!['\n']),
                },
            },
        }
    }
}

fn push_escaped(out: &mut String, s: &str)
    ensures
        final(out)@ == old(out)@ + escape_cell(s@),
{
    let t = crate::text::chars_of(s);
    let mut i: usize = 0;
    assert(s@.subrange(0, 0) =~= Seq::<char>::empty());
    while i < t.len()
        invariant
            i <= t@.len(),
            t@ == s@,
            out@ == old(out)@ + escape_cell(s@.subrange(0, i as int)),
        decreases t@.len() - i,
    {
        let c = t[i];
        assert(s@.subrange(0, i + 1).drop_last() =~= s@.subrange(0, i as int));
        if c == '"' || c == '\\' {
            crate::text::push_char(out, '\\');
        }
        crate::text::push_char(out, c);
        assert(out@ =~= old(out)@ + escape_cell(s@.subrange(0, i + 1)));
        i = i + 1;
    }
    assert(s@.subrange(0, i as int) =~= s@);
}

/// Append a cell's text, or say that it has none.
fn push_cell(out: &mut String, v: &Value) -> (ok: bool)
    ensures
        match cell_text(*v) {
            Some(c) => ok && final(out)@ == old(out)@ + c,
            None => !ok,
        },
{
    match v {
        Value::Null(_) => {
            crate::text::push_str(out, "null");
        },
        Value::String(x) => {
            crate::text::push_char(out, '"');
            push_escaped(out, x.value.as_str());
            crate::text::push_char(out, '"');
        },
        Value::Int(x) => {
            crate::text::push_str(out, x.raw.as_str());
        },
        Value::Float(x) => {
            crate::text::push_str(out, x.raw.as_str());
        },
        Value::Bool(x) => {
            if x.value {
                crate::text::push_str(out, "true");
            } else {
                crate::text::push_str(out, "false");
            }
        },
        Value::Bytes(x) => {
            crate::text::push_str(out, "b\"");
            let e = encode_base64(x.value.as_slice());
            crate::text::push_str(out, e.as_str());
            crate::text::push_char(out, '"');
        },
        Value::Ident(x) => {
            crate::text::push_str(out, x.name.as_str());
        },
        Value::Timestamp(x) => {
            crate::text::push_str(out, x.raw.as_str());
        },
        Value::Duration(x) => {
            crate::text::push_str(out, x.raw.as_str());
        },
        _ => {
            return false;
        },
    }
    assert(match cell_text(*v) {
        Some(c) => out@ =~= old(out)@ + c,
        None => false,
    });
    true
}

/// The error of a row whose cells do not match the columns.
pub open spec fn arity_message(columns: nat, cells: nat) -> Seq<char> {
    "pxf: bind_row: "@ + crate::text::decimal_chars(columns) + " columns vs "@
        + crate::text::decimal_chars(cells) + " cells"@
}

/// Decode one row of a `@table` or `@dataset` as a message of type `root`:
/// each non-empty cell becomes a `column = value` line, and that text is
/// decoded as [`unmarshal`] decodes it.
pub fn bind_row(sc: &Schema, root: usize, columns: &[String], row: &DatasetRow, opts: UnmarshalOptions) -> (r: Result<Decoded, PxfError>)
    requires
        schema_ok(*sc),
        root < sc.messages@.len(),
    ensures
        columns@.len() != row.cells@.len() ==> (r matches Err(e) && e.pos == row.pos && e.msg@
            == arity_message(columns@.len(), row.cells@.len())),
        columns@.len() == row.cells@.len() ==> match row_document(columns@, row.cells@) {
            None => (r matches Err(e) && e.pos == row.pos && e.msg@
                == "pxf: bind_row: unexpected cell variant (v1 @table cells are scalar-shaped)"@),
            Some(t) => decoded_from(encode_utf8(t), *sc, root as int, opts.discard_unknown, r),
        },
{
    if columns.len() != row.cells.len() {
        let mut m = crate::text::owned("pxf: bind_row: ");
        crate::text::push_decimal(&mut m, columns.len() as u64);
        crate::text::push_str(&mut m, " columns vs ");
        crate::text::push_decimal(&mut m, row.cells.len() as u64);
        crate::text::push_str(&mut m, " cells");
        return Err(PxfError::new(row.pos, m));
    }
    let mut body = String::new();
    let mut i: usize = 0;
    let n = row.cells.len();
    assert(row.cells@.subrange(0, 0) =~= Seq::<Option<Value>>::empty());
    while i < n
        invariant
            n == row.cells@.len(),
            n == columns@.len(),
            i <= n,
            row_document(columns@, row.cells@.subrange(0, i as int)) == Some(body@),
        decreases n - i,
    {
        let ghost pre = row.cells@.subrange(0, i as int);
        let ghost nxt = row.cells@.subrange(0, i + 1);
        assert(nxt.drop_last() =~= pre);
        assert(nxt.last() == row.cells@[i as int]);
        match &row.cells[i] {
            None => {},
            Some(v) => {
                crate::text::push_str(&mut body, columns[i].as_str());
                crate::text::push_str(&mut body, " = ");
                let ghost b0 = body@;
                if !push_cell(&mut body, v) {
                    assert(row_document(columns@, nxt) is None);
                    let mut k = i + 1;
                    while k < n
                        invariant
                            i < k <= n,
                            n == row.cells@.len(),
                            row_document(columns@, row.cells@.subrange(0, k as int)) is None,
                        decreases n - k,
                    {
                        assert(row.cells@.subrange(0, k + 1).drop_last() =~= row.cells@.subrange(0, k as int));
                        k = k + 1;
                    }
                    assert(row.cells@.subrange(0, n as int) =~= row.cells@);
                    return Err(PxfError::new(
                        row.pos,
                        crate::text::owned("pxf: bind_row: unexpected cell variant (v1 @table cells are scalar-shaped)"),
                    ));
                }
                crate::text::push_char(&mut body, '\n');
            },
        }
        i = i + 1;
    }
    assert(row.cells@.subrange(0, n as int) =~= row.cells@);
    unmarshal(body.as_str(), sc, root, opts)
}


// ---------------------------------------------------------------- laws
/// How a row cell writes one character.
spec fn cell_char(c: char) -> Seq<char> {
    if c == '"' || c == '\\' {
        seq!['\\', c]
    } else {
        seq![c]
    }
}

proof fn lemma_escape_cell_is_escaped_by(s: Seq<char>)
    ensures
        escape_cell(s) == escaped_by(|c: char| cell_char(c), s),
    decreases s.len(),
{
    let esc = |c: char| cell_char(c);
    if s.len() == 0 {
        assert(escaped_by(esc, s) =~= Seq::<char>::empty());
    } else {
        lemma_escape_cell_is_escaped_by(s.drop_last());
        lemma_escaped_by_push(esc, s.drop_last(), s.last());
        assert(s.drop_last().push(s.last()) =~= s);
        if !(s.last() == '"' || s.last() == '\\') {
            assert(escape_cell(s.drop_last()).push(s.last()) =~= escape_cell(s.drop_last()) + seq![
                s.last(),
            ]);
        }
    }
}

/// A string cell keeps its value through the row text that binding builds:
/// for every string value `x`, the cell's text, whatever follows it, lexes
/// back as a `String` token whose value is exactly `x`, ending right after
/// the closing quote; it is the token the lexer reads there unless `x` is
/// empty and another quote follows.
pub proof fn lemma_string_cell_lexes(sv: StringVal, rest: Seq<u8>)
    ensures
        cell_text(Value::String(sv)) is Some,
        ({
            let t = encode_utf8(cell_text(Value::String(sv))->0);
            let x = sv.value@;
            &&& string_at(t + rest, 0) == (TokenKind::String, x, t.len() as int)
            &&& (x.len() > 0 || rest.len() == 0 || rest[0] != 34) ==> token_at(t + rest, 0)
                == string_at(t + rest, 0)
        }),
{
    let x = sv.value@;
    let esc = |c: char| cell_char(c);
    assert forall|c: char| escapes_to(c, #[trigger] esc(c)) by {
        assert(('\\' as u32) == 92);
        assert(('"' as u32) == 34);
    }
    lemma_escape_cell_is_escaped_by(x);
    lemma_escaped_string_lexes(esc, x, rest);
}

} // verus!
