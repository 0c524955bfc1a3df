//! Keyed repeated fields: a `repeated <Message>` field carrying the
//! `(pxf.key)` option may be written as a block of named blocks, entry name
//! = key-field value, entry order = list order:
//!
//! ```text
//! children {
//!   greeting    { type = "Label" }
//!   counter_row { type = "HBox"  }
//! }
//! ```
//!
//! This module holds the entry-name spelling rule, the decode-error
//! wording, the key checks for one element body, the AST helpers that find
//! and drop explicit key assignments, and the schema-aware rewrite of a
//! document to its canonical keyed form.
use vstd::prelude::*;

use crate::pxf::ast::{Assignment, Block, BlockVal, Comment, Document, Entry, ListVal, MapEntry, Value};
use crate::pxf::schema::{find_candidate, FieldKind, FieldSchema, FileSchema, MessageSchema};
use crate::pxf::errors::PxfError;
use crate::pxf::format::{quote_string, quote_text};
use crate::pxf::token::Position;
use crate::text::{chars_of, owned, push_str};

verus! {

pub open spec fn is_ascii_alpha(c: char) -> bool {
    (65 <= (c as u32) <= 90) || (97 <= (c as u32) <= 122)
}

pub open spec fn is_ascii_digit(c: char) -> bool {
    48 <= (c as u32) <= 57
}

/// A character that may follow the first one of an unquoted entry name.
pub open spec fn is_name_part(c: char) -> bool {
    is_ascii_alpha(c) || is_ascii_digit(c) || c == '_' || c == '.'
}

/// Whether `s` can be written as an unquoted entry name: an ASCII letter or
/// `_`, then letters, digits, `_` and `.`, and not one of the value keywords
/// `null` / `true` / `false`.
pub open spec fn ident_safe(s: Seq<char>) -> bool {
    &&& s.len() > 0
    &&& s != "true"@ && s != "false"@ && s != "null"@
    &&& is_ascii_alpha(s[0]) || s[0] == '_'
    &&& forall|i: int| 1 <= i < s.len() ==> is_name_part(#[trigger] s[i])
}

/// Whether `s` can be written as an unquoted entry name. Canonical form
/// writes an entry name unquoted exactly when this holds.
pub fn ident_safe_entry_name(s: &str) -> (r: bool)
    ensures
        r == ident_safe(s@),
{
    let t = chars_of(s);
    if t.len() == 0 {
        return false;
    }
    let o = owned(s);
    if crate::text::str_is(&o, "true") || crate::text::str_is(&o, "false") || crate::text::str_is(
        &o,
        "null",
    ) {
        return false;
    }
    let c0 = t[0];
    let u0 = c0 as u32;
    if !((65 <= u0 && u0 <= 90) || (97 <= u0 && u0 <= 122) || c0 == '_') {
        return false;
    }
    let mut k: usize = 1;
    while k < t.len()
        invariant
            1 <= k <= t@.len(),
            t@ == s@,
            forall|i: int| 1 <= i < k ==> is_name_part(#[trigger] t@[i]),
        decreases t@.len() - k,
    {
        let c = t[k];
        let u = c as u32;
        if !((65 <= u && u <= 90) || (97 <= u && u <= 122) || (48 <= u && u <= 57) || c == '_'
            || c == '.') {
            return false;
        }
        k = k + 1;
    }
    true
}

// ---------------------------------------------------------------- errors
pub open spec fn empty_name_message(field: Seq<char>) -> Seq<char> {
    "empty entry name in keyed field "@ + quote_text(field)
        + ": the empty string is not a valid key"@
}

pub open spec fn duplicate_key_message(field: Seq<char>, key: Seq<char>) -> Seq<char> {
    "duplicate key "@ + quote_text(key) + " in keyed field "@ + quote_text(field)
}

pub open spec fn quoted_name_unkeyed_message(name: Seq<char>) -> Seq<char> {
    "quoted entry name "@ + quote_text(name)
        + " is only valid inside a keyed repeated field's block"@
}

/// An entry named by the empty string inside a keyed field's block.
pub fn empty_name_error(pos: Position, field: &str) -> (e: PxfError)
    ensures
        e.pos == pos,
        e.msg@ == empty_name_message(field@),
{
    let mut m = owned("empty entry name in keyed field ");
    push_str(&mut m, quote_string(field).as_str());
    push_str(&mut m, ": the empty string is not a valid key");
    PxfError::new(pos, m)
}

/// Two entries of one keyed field with the same key.
pub fn duplicate_key_error(pos: Position, field: &str, key: &str) -> (e: PxfError)
    ensures
        e.pos == pos,
        e.msg@ == duplicate_key_message(field@, key@),
{
    let mut m = owned("duplicate key ");
    push_str(&mut m, quote_string(key).as_str());
    push_str(&mut m, " in keyed field ");
    push_str(&mut m, quote_string(field).as_str());
    PxfError::new(pos, m)
}

/// A quoted entry name outside a keyed field's block.
pub fn quoted_name_unkeyed_error(pos: Position, name: &str) -> (e: PxfError)
    ensures
        e.pos == pos,
        e.msg@ == quoted_name_unkeyed_message(name@),
{
    let mut m = owned("quoted entry name ");
    push_str(&mut m, quote_string(name).as_str());
    push_str(&mut m, " is only valid inside a keyed repeated field's block");
    PxfError::new(pos, m)
}

// ---------------------------------------------------------------- one element
/// The key checks for the immediate body of one element of a keyed repeated
/// field: an explicit assignment to the key field must not be empty, and in
/// the named (keyed-block) form must agree with the entry name.
#[derive(Debug, Clone)]
pub struct KeyedElemState {
    /// The keyed repeated field's PXF name.
    pub field: String,
    /// The element message's key field name.
    pub key_name: String,
    /// The entry name; meaningful only when `named`.
    pub entry_name: String,
    /// Keyed-block form (true) vs an anonymous list element (false).
    pub named: bool,
}

pub open spec fn empty_key_message(key_name: Seq<char>, field: Seq<char>) -> Seq<char> {
    "explicit empty-string assignment to key field "@ + quote_text(key_name)
        + " of keyed field "@ + quote_text(field) + ": the empty string is not a valid key"@
}

pub open spec fn key_conflict_message(
    key_name: Seq<char>,
    value: Seq<char>,
    entry_name: Seq<char>,
    field: Seq<char>,
) -> Seq<char> {
    "key field "@ + quote_text(key_name) + " = "@ + quote_text(value)
        + " conflicts with entry name "@ + quote_text(entry_name) + " in keyed field "@
        + quote_text(field)
}

impl KeyedElemState {
    /// Checks an explicit assignment `key_name = value` in the element body:
    /// an empty value is refused, and so is, in the named form, a value other
    /// than the entry name.
    pub fn check_explicit_key(&self, value: &str, pos: Position) -> (r: Result<(), PxfError>)
        ensures
            value@.len() == 0 ==> (r matches Err(e) && e.pos == pos && e.msg@ == empty_key_message(
                self.key_name@,
                self.field@,
            )),
            value@.len() > 0 && self.named && value@ != self.entry_name@ ==> (r matches Err(e)
                && e.pos == pos && e.msg@ == key_conflict_message(
                self.key_name@,
                value@,
                self.entry_name@,
                self.field@,
            )),
            value@.len() > 0 && !(self.named && value@ != self.entry_name@) ==> r is Ok,
    {
        let t = chars_of(value);
        if t.len() == 0 {
            let mut m = owned("explicit empty-string assignment to key field ");
            push_str(&mut m, quote_string(self.key_name.as_str()).as_str());
            push_str(&mut m, " of keyed field ");
            push_str(&mut m, quote_string(self.field.as_str()).as_str());
            push_str(&mut m, ": the empty string is not a valid key");
            return Err(PxfError::new(pos, m));
        }
        let v = owned(value);
        if self.named && !v.eq(&self.entry_name) {
            let mut m = owned("key field ");
            push_str(&mut m, quote_string(self.key_name.as_str()).as_str());
            push_str(&mut m, " = ");
            push_str(&mut m, quote_string(value).as_str());
            push_str(&mut m, " conflicts with entry name ");
            push_str(&mut m, quote_string(self.entry_name.as_str()).as_str());
            push_str(&mut m, " in keyed field ");
            push_str(&mut m, quote_string(self.field.as_str()).as_str());
            return Err(PxfError::new(pos, m));
        }
        Ok(())
    }
}

// ---------------------------------------------------------------- key assignments
/// The value of the single explicit string assignment to `key` among
/// `es[k..]`, given the one `found` before `k`. `None` when an assignment to
/// `key` is not a string, is spelled with a quoted key, or is a second one.
pub open spec fn key_scan(es: Seq<Entry>, k: int, key: Seq<char>, found: Option<Seq<char>>) -> Option<
    Seq<char>,
>
    decreases es.len() - k,
{
    if k < 0 || k >= es.len() {
        found
    } else {
        match es[k] {
            Entry::Assignment(a) => if a.key@ != key {
                key_scan(es, k + 1, key, found)
            } else {
                match a.value {
                    Value::String(sv) => if a.key_quoted || found is Some {
                        None
                    } else {
                        key_scan(es, k + 1, key, Some(sv.value@))
                    },
                    _ => None,
                }
            },
            _ => key_scan(es, k + 1, key, found),
        }
    }
}

/// The value of the single explicit string assignment to `key_name` among
/// `entries`. `None` when there is no such assignment, more than one, a
/// quoted-key spelling, or a non-string value.
pub fn explicit_key_of(entries: &[Entry], key_name: &str) -> (r: Option<String>)
    ensures
        match key_scan(entries@, 0, key_name@, None) {
            Some(v) => r matches Some(s) && s@ == v,
            None => r is None,
        },
{
    let key = owned(key_name);
    let mut found: Option<String> = None;
    let mut k: usize = 0;
    while k < entries.len()
        invariant
            k <= entries@.len(),
            key@ == key_name@,
            key_scan(entries@, 0, key_name@, None) == key_scan(
                entries@,
                k as int,
                key_name@,
                match found {
                    Some(s) => Some(s@),
                    None => None,
                },
            ),
        decreases entries@.len() - k,
    {
        if let Entry::Assignment(a) = &entries[k] {
            if a.key.eq(&key) {
                if let Value::String(sv) = &a.value {
                    if a.key_quoted || found.is_some() {
                        return None;
                    }
                    found = Some(sv.value.clone());
                } else {
                    return None;
                }
            }
        }
        k = k + 1;
    }
    found
}

/// Whether `e` is the redundant agreeing spelling `key = "name"` of an
/// entry's key.
pub open spec fn is_agreeing_key(e: Entry, key: Seq<char>, name: Seq<char>) -> bool {
    e matches Entry::Assignment(a) && !a.key_quoted && a.key@ == key && (a.value matches Value::String(
        sv,
    ) && sv.value@ == name)
}

pub open spec fn comments_of(e: Entry) -> Seq<Comment> {
    match e {
        Entry::Assignment(a) => a.leading_comments@,
        Entry::Block(b) => b.leading_comments@,
        Entry::MapEntry(m) => m.leading_comments@,
    }
}

/// `f` is `e` with its leading comments replaced by `cs`.
pub open spec fn same_but_comments(e: Entry, f: Entry, cs: Seq<Comment>) -> bool {
    match (e, f) {
        (Entry::Assignment(a), Entry::Assignment(b)) => {
            &&& b.pos == a.pos && b.key == a.key && b.key_quoted == a.key_quoted
            &&& b.value == a.value && b.trailing_comment == a.trailing_comment
            &&& b.leading_comments@ == cs
        },
        (Entry::Block(a), Entry::Block(b)) => {
            &&& b.pos == a.pos && b.name == a.name && b.name_quoted == a.name_quoted
            &&& b.entries == a.entries
            &&& b.leading_comments@ == cs
        },
        (Entry::MapEntry(a), Entry::MapEntry(b)) => {
            &&& b.pos == a.pos && b.key == a.key && b.value == a.value
            &&& b.trailing_comment == a.trailing_comment
            &&& b.leading_comments@ == cs
        },
        _ => false,
    }
}

/// `out` is what dropping the agreeing key assignments leaves of `es`, when
/// the comments `pending` of dropped ones wait for the next surviving entry:
/// each survivor keeps its place and gains, in front of its own leading
/// comments, those of the assignments dropped just before it.
pub open spec fn dropped_keys(
    es: Seq<Entry>,
    out: Seq<Entry>,
    key: Seq<char>,
    name: Seq<char>,
    pending: Seq<Comment>,
) -> bool
    decreases es.len(),
{
    if es.len() == 0 {
        out.len() == 0
    } else if is_agreeing_key(es[0], key, name) {
        dropped_keys(es.drop_first(), out, key, name, pending + comments_of(es[0]))
    } else {
        &&& out.len() > 0
        &&& same_but_comments(es[0], out[0], pending + comments_of(es[0]))
        &&& dropped_keys(es.drop_first(), out.drop_first(), key, name, seq![])
    }
}

/// Whether `e` spells `key = "name"`.
fn agrees(e: &Entry, key: &String, name: &String) -> (r: bool)
    ensures
        r == is_agreeing_key(*e, key@, name@),
{
    match e {
        Entry::Assignment(a) => {
            if a.key_quoted || !a.key.eq(key) {
                return false;
            }
            match &a.value {
                Value::String(sv) => sv.value.eq(name),
                _ => false,
            }
        },
        _ => false,
    }
}

/// `e` with `pending` put in front of its leading comments.
fn prepend_comments(e: Entry, pending: Vec<Comment>) -> (f: Entry)
    ensures
        same_but_comments(e, f, pending@ + comments_of(e)),
{
    let mut merged = pending;
    match e {
        Entry::Assignment(mut a) => {
            let mut cs = Vec::new();
            std::mem::swap(&mut cs, &mut a.leading_comments);
            merged.append(&mut cs);
            a.leading_comments = merged;
            Entry::Assignment(a)
        },
        Entry::Block(mut b) => {
            let mut cs = Vec::new();
            std::mem::swap(&mut cs, &mut b.leading_comments);
            merged.append(&mut cs);
            b.leading_comments = merged;
            Entry::Block(b)
        },
        Entry::MapEntry(mut m) => {
            let mut cs = Vec::new();
            std::mem::swap(&mut cs, &mut m.leading_comments);
            merged.append(&mut cs);
            m.leading_comments = merged;
            Entry::MapEntry(m)
        },
    }
}

/// Removes the `key_name = "entry_name"` assignments, the redundant agreeing
/// spelling of an entry's key. Disagreeing or non-string assignments are
/// kept. Leading comments of a dropped assignment move to the next surviving
/// entry; those of trailing dropped assignments are lost with them.
pub fn drop_key_assignments(entries: Vec<Entry>, key_name: &str, entry_name: &str) -> (out: Vec<
    Entry,
>)
    ensures
        dropped_keys(entries@, out@, key_name@, entry_name@, seq![]),
{
    let key = owned(key_name);
    let name = owned(entry_name);
    let ghost orig = entries@;
    let mut rest = entries;
    let mut out: Vec<Entry> = Vec::new();
    let mut pending: Vec<Comment> = Vec::new();
    while rest.len() > 0
        invariant
            key@ == key_name@,
            name@ == entry_name@,
            forall|t: Seq<Entry>|
                dropped_keys(rest@, t, key@, name@, pending@) ==> #[trigger] dropped_keys(
                    orig,
                    out@ + t,
                    key@,
                    name@,
                    seq![],
                ),
        decreases rest@.len(),
    {
        let ghost before = rest@;
        let ghost out0 = out@;
        let ghost p0 = pending@;
        let e = rest.remove(0);
        assert(rest@ == before.drop_first());
        if agrees(&e, &key, &name) {
            let ghost ce = comments_of(e);
            let mut cs = match e {
                Entry::Assignment(a) => a.leading_comments,
                Entry::Block(b) => b.leading_comments,
                Entry::MapEntry(m) => m.leading_comments,
            };
            assert(cs@ == ce);
            pending.append(&mut cs);
            assert forall|t: Seq<Entry>|
                dropped_keys(rest@, t, key@, name@, pending@) implies #[trigger] dropped_keys(
                orig,
                out@ + t,
                key@,
                name@,
                seq![],
            ) by {
                assert(dropped_keys(before, t, key@, name@, p0));
            }
        } else {
            let mut fresh: Vec<Comment> = Vec::new();
            std::mem::swap(&mut fresh, &mut pending);
            let f = prepend_comments(e, fresh);
            out.push(f);
            assert forall|t: Seq<Entry>|
                dropped_keys(rest@, t, key@, name@, pending@) implies #[trigger] dropped_keys(
                orig,
                out@ + t,
                key@,
                name@,
                seq![],
            ) by {
                let t2 = seq![f] + t;
                assert(t2.drop_first() =~= t);
                assert(t2[0] == f);
                assert(dropped_keys(before, t2, key@, name@, p0));
                assert(out@ + t =~= out0 + t2);
            }
        }
    }
    assert(dropped_keys(rest@, seq![], key@, name@, pending@));
    assert(out@ + seq![] =~= out@);
    out
}


// ---------------------------------------------------------------- the schema, looked up

/// The first of `fs[k..]` named `name`.
pub open spec fn field_from(fs: Seq<FieldSchema>, name: Seq<char>, k: int) -> Option<FieldSchema>
    decreases fs.len() - k,
{
    if k < 0 || k >= fs.len() {
        None
    } else if fs[k].name@ == name {
        Some(fs[k])
    } else {
        field_from(fs, name, k + 1)
    }
}

/// The field of `m` named `name`.
pub open spec fn field_named(m: MessageSchema, name: Seq<char>) -> Option<FieldSchema> {
    field_from(m.fields@, name, 0)
}

/// The first message named `full` in `files[i..]`, from message `j` of
/// `files[i]` on.
pub open spec fn message_from(files: Seq<FileSchema>, full: Seq<char>, i: int, j: int) -> Option<
    MessageSchema,
>
    decreases files.len() - i, files[i].messages@.len() - j,
{
    if i < 0 || i >= files.len() {
        None
    } else if j < 0 || j >= files[i].messages@.len() {
        message_from(files, full, i + 1, 0)
    } else if files[i].messages@[j].full_name@ == full {
        Some(files[i].messages@[j])
    } else {
        message_from(files, full, i, j + 1)
    }
}

/// The message of `files` named `full`.
pub open spec fn message_named(files: Seq<FileSchema>, full: Seq<char>) -> Option<MessageSchema> {
    message_from(files, full, 0, 0)
}

/// The element message of a message-typed field.
pub open spec fn elem_of(files: Seq<FileSchema>, fd: FieldSchema) -> Option<MessageSchema> {
    match fd.kind {
        FieldKind::Message(r) => message_named(files, r.full_name@),
        _ => None,
    }
}

/// The value message of a map field whose values are messages.
pub open spec fn map_value_of(files: Seq<FileSchema>, fd: FieldSchema) -> Option<MessageSchema> {
    match elem_of(files, fd) {
        Some(entry) => match field_named(entry, "value"@) {
            Some(vf) => elem_of(files, vf),
            None => None,
        },
        None => None,
    }
}

/// The key field's name of a keyed repeated field: the singular string
/// field of the element message that the field's `(pxf.key)` names. `None`
/// when the field carries no `(pxf.key)` or its placement is invalid.
pub open spec fn key_of(fd: FieldSchema) -> Option<Seq<char>> {
    if !fd.is_list || fd.is_map {
        None
    } else {
        match fd.kind {
            FieldKind::Message(m) => match fd.key {
                Some(k) => if k@.len() == 0 {
                    None
                } else {
                    match find_candidate(m.fields@, k@, 0) {
                        Some(kf) => if kf.is_list || kf.is_map || !kf.is_string {
                            None
                        } else {
                            Some(kf.name@)
                        },
                        None => None,
                    }
                },
                None => None,
            },
            _ => None,
        }
    }
}

// ---------------------------------------------------------------- the canonical keyed form

/// `cs` after `extra`.
pub open spec fn with_extra(extra: Seq<Comment>, cs: Seq<Comment>) -> Seq<Comment> {
    if extra.len() == 0 {
        cs
    } else {
        extra + cs
    }
}

/// `b` heads `a`'s rewrite, with `extra` before its leading comments.
pub open spec fn assignment_head(a: Assignment, b: Assignment, extra: Seq<Comment>) -> bool {
    &&& b.pos == a.pos
    &&& b.key == a.key
    &&& b.key_quoted == a.key_quoted
    &&& b.leading_comments@ == with_extra(extra, a.leading_comments@)
    &&& b.trailing_comment == a.trailing_comment
}

/// `b` heads `a`'s rewrite, with `extra` before its leading comments.
pub open spec fn block_head(a: Block, b: Block, extra: Seq<Comment>) -> bool {
    &&& b.pos == a.pos
    &&& b.name == a.name
    &&& b.name_quoted == a.name_quoted
    &&& b.leading_comments@ == with_extra(extra, a.leading_comments@)
}

/// `out` is `es` rewritten to the canonical keyed form, `m` being their
/// message: entry by entry, see [`canon_one`].
pub open spec fn canon_seq(es: Seq<Entry>, out: Seq<Entry>, files: Seq<FileSchema>, m: MessageSchema) -> bool
    decreases es,
{
    if es.len() == 0 {
        out.len() == 0
    } else {
        &&& out.len() > 0
        &&& canon_one(es[0], out[0], files, m, seq![])
        &&& canon_seq(es.subrange(1, es.len() as int), out.subrange(1, out.len() as int), files, m)
    }
}

/// One entry of message `m` in canonical keyed form, `extra` comments put
/// before its own. Entries with quoted names, naming no field, or whose
/// field's types are not in `files` stay as they are; a keyed field's
/// block has its entries normalized; a message field's block, and an
/// assignment's value, are rewritten inside.
pub open spec fn canon_one(e: Entry, f: Entry, files: Seq<FileSchema>, m: MessageSchema, extra: Seq<Comment>) -> bool
    decreases e,
{
    let kept = same_but_comments(e, f, with_extra(extra, comments_of(e)));
    match e {
        Entry::Assignment(a) => if a.key_quoted {
            kept
        } else {
            match field_named(m, a.key@) {
                None => kept,
                Some(fd) => canon_assign(a, f, files, fd, extra),
            }
        },
        Entry::Block(b) => if b.name_quoted {
            kept
        } else {
            match field_named(m, b.name@) {
                None => kept,
                Some(fd) => match key_of(fd) {
                    Some(k) => match elem_of(files, fd) {
                        Some(elem) => f matches Entry::Block(fb) && block_head(b, fb, extra)
                            && canon_keyed_seq(b.entries@, fb.entries@, files, elem, k),
                        None => kept,
                    },
                    None => if !fd.is_list && !fd.is_map {
                        match elem_of(files, fd) {
                            Some(inner) => f matches Entry::Block(fb) && block_head(b, fb, extra)
                                && canon_seq(b.entries@, fb.entries@, files, inner),
                            None => kept,
                        }
                    } else {
                        kept
                    },
                },
            }
        },
        Entry::MapEntry(_) => kept,
    }
}

/// An assignment to field `fd` in canonical keyed form, `extra` comments
/// put before its own: inside a map of messages each message value is
/// rewritten; a keyed field's list becomes a keyed block when it can (see
/// [`canon_anon_seq`]) and its `= { ... }` spelling becomes a block; inside
/// an unkeyed list of messages, or a message value, the messages are
/// rewritten.
pub open spec fn canon_assign(a: Assignment, f: Entry, files: Seq<FileSchema>, fd: FieldSchema, extra: Seq<Comment>) -> bool
    decreases a,
{
    let kept = same_but_comments(Entry::Assignment(a), f, with_extra(extra, a.leading_comments@));
    if fd.is_map {
        match map_value_of(files, fd) {
            Some(vm) => match a.value {
                Value::Block(bv) => f matches Entry::Assignment(fa) && assignment_head(a, fa, extra)
                    && (fa.value matches Value::Block(fbv) && fbv.pos == bv.pos && canon_map_seq(
                    bv.entries@,
                    fbv.entries@,
                    files,
                    vm,
                )),
                _ => kept,
            },
            None => kept,
        }
    } else if fd.is_list {
        match elem_of(files, fd) {
            None => kept,
            Some(elem) => match a.value {
                Value::List(lv) => match key_of(fd) {
                    Some(k) => if anon_eligible(lv.elements@, k) {
                        f matches Entry::Block(fb) && fb.pos == a.pos && fb.name == a.key
                            && !fb.name_quoted && fb.leading_comments@ == with_extra(
                            extra,
                            a.leading_comments@,
                        ) && canon_anon_seq(lv.elements@, fb.entries@, files, elem, k)
                    } else {
                        f matches Entry::Assignment(fa) && assignment_head(a, fa, extra) && (
                        fa.value matches Value::List(flv) && flv.pos == lv.pos && canon_list(
                            lv.elements@,
                            flv.elements@,
                            files,
                            elem,
                        ))
                    },
                    None => f matches Entry::Assignment(fa) && assignment_head(a, fa, extra) && (
                    fa.value matches Value::List(flv) && flv.pos == lv.pos && canon_list(
                        lv.elements@,
                        flv.elements@,
                        files,
                        elem,
                    )),
                },
                Value::Block(bv) => match key_of(fd) {
                    Some(k) => f matches Entry::Block(fb) && fb.pos == a.pos && fb.name == a.key
                        && !fb.name_quoted && fb.leading_comments@ == with_extra(
                        extra,
                        a.leading_comments@,
                    ) && canon_keyed_seq(bv.entries@, fb.entries@, files, elem, k),
                    None => kept,
                },
                _ => kept,
            },
        }
    } else {
        match elem_of(files, fd) {
            Some(inner) => match a.value {
                Value::Block(bv) => f matches Entry::Assignment(fa) && assignment_head(a, fa, extra)
                    && (fa.value matches Value::Block(fbv) && fbv.pos == bv.pos && canon_seq(
                    bv.entries@,
                    fbv.entries@,
                    files,
                    inner,
                )),
                _ => kept,
            },
            None => kept,
        }
    }
}

/// The entries of a map's block: each `key: { ... }` message value
/// rewritten as a message `vm`.
pub open spec fn canon_map_seq(es: Seq<Entry>, out: Seq<Entry>, files: Seq<FileSchema>, vm: MessageSchema) -> bool
    decreases es,
{
    if es.len() == 0 {
        out.len() == 0
    } else {
        &&& out.len() > 0
        &&& match es[0] {
            Entry::MapEntry(me) => match me.value {
                Value::Block(inner) => out[0] matches Entry::MapEntry(fme) && fme.pos == me.pos
                    && fme.key == me.key && fme.leading_comments == me.leading_comments
                    && fme.trailing_comment == me.trailing_comment && (fme.value matches Value::Block(
                    finner,
                ) && finner.pos == inner.pos && canon_seq(
                    inner.entries@,
                    finner.entries@,
                    files,
                    vm,
                )),
                _ => out[0] == es[0],
            },
            _ => out[0] == es[0],
        }
        &&& canon_map_seq(es.subrange(1, es.len() as int), out.subrange(1, out.len() as int), files, vm)
    }
}

/// The elements of a list of messages `elem`: each block rewritten.
pub open spec fn canon_list(vs: Seq<Value>, ws: Seq<Value>, files: Seq<FileSchema>, elem: MessageSchema) -> bool
    decreases vs,
{
    if vs.len() == 0 {
        ws.len() == 0
    } else {
        &&& ws.len() > 0
        &&& match vs[0] {
            Value::Block(bv) => ws[0] matches Value::Block(fbv) && fbv.pos == bv.pos && canon_seq(
                bv.entries@,
                fbv.entries@,
                files,
                elem,
            ),
            _ => ws[0] == vs[0],
        }
        &&& canon_list(vs.subrange(1, vs.len() as int), ws.subrange(1, ws.len() as int), files, elem)
    }
}

/// The body of a keyed entry named `name`: rewritten as message `m`, with
/// its agreeing `key = "name"` assignments dropped and their leading
/// comments, `pending` first, moved onto the next entry that stays.
pub open spec fn canon_drop_seq(
    es: Seq<Entry>,
    out: Seq<Entry>,
    files: Seq<FileSchema>,
    m: MessageSchema,
    key: Seq<char>,
    name: Seq<char>,
    pending: Seq<Comment>,
) -> bool
    decreases es,
{
    if es.len() == 0 {
        out.len() == 0
    } else if is_agreeing_key(es[0], key, name) {
        canon_drop_seq(
            es.subrange(1, es.len() as int),
            out,
            files,
            m,
            key,
            name,
            pending + comments_of(es[0]),
        )
    } else {
        &&& out.len() > 0
        &&& canon_one(es[0], out[0], files, m, pending)
        &&& canon_drop_seq(
            es.subrange(1, es.len() as int),
            out.subrange(1, out.len() as int),
            files,
            m,
            key,
            name,
            seq![],
        )
    }
}

/// The entries of a keyed field's block, `key` naming the element's key
/// field: each `name = { ... }` becomes `name { ... }`, an identifier-safe
/// quoted name loses its quotes, and the entry's body is rewritten without
/// its agreeing key assignments.
pub open spec fn canon_keyed_seq(
    es: Seq<Entry>,
    out: Seq<Entry>,
    files: Seq<FileSchema>,
    elem: MessageSchema,
    key: Seq<char>,
) -> bool
    decreases es,
{
    if es.len() == 0 {
        out.len() == 0
    } else {
        &&& out.len() > 0
        &&& keyed_one(es[0], out[0], files, elem, key)
        &&& canon_keyed_seq(
            es.subrange(1, es.len() as int),
            out.subrange(1, out.len() as int),
            files,
            elem,
            key,
        )
    }
}

/// One entry of a keyed field's block, normalized.
pub open spec fn keyed_one(e: Entry, f: Entry, files: Seq<FileSchema>, elem: MessageSchema, key: Seq<char>) -> bool
    decreases e,
{
    match e {
        Entry::Assignment(a) => match a.value {
            Value::Block(bv) => f matches Entry::Block(fb) && fb.pos == a.pos && fb.name == a.key
                && fb.name_quoted == (a.key_quoted && !ident_safe(a.key@)) && fb.leading_comments
                == a.leading_comments && canon_drop_seq(
                bv.entries@,
                fb.entries@,
                files,
                elem,
                key,
                a.key@,
                seq![],
            ),
            _ => f == e,
        },
        Entry::Block(b) => f matches Entry::Block(fb) && fb.pos == b.pos && fb.name == b.name
            && fb.name_quoted == (b.name_quoted && !ident_safe(b.name@)) && fb.leading_comments
            == b.leading_comments && canon_drop_seq(
            b.entries@,
            fb.entries@,
            files,
            elem,
            key,
            b.name@,
            seq![],
        ),
        _ => f == e,
    }
}

/// The explicit keys of the elements of an anonymous list, when every
/// element is a block with exactly one non-empty explicit key assignment.
pub open spec fn anon_keys(vs: Seq<Value>, key: Seq<char>) -> Option<Seq<Seq<char>>>
    decreases vs.len(),
{
    if vs.len() == 0 {
        Some(seq![])
    } else {
        match anon_keys(vs.drop_last(), key) {
            Some(ks) => match vs.last() {
                Value::Block(bv) => match key_scan(bv.entries@, 0, key, None) {
                    Some(k) => if k.len() > 0 {
                        Some(ks.push(k))
                    } else {
                        None
                    },
                    None => None,
                },
                _ => None,
            },
            None => None,
        }
    }
}

/// Whether an anonymous list of a keyed field can be written keyed: every
/// element has its key, and no two share one.
pub open spec fn anon_eligible(vs: Seq<Value>, key: Seq<char>) -> bool {
    anon_keys(vs, key) matches Some(ks) && ks.no_duplicates()
}

/// The entries a keyed block gets from an eligible anonymous list: each
/// element becomes a block named by its key (quoted unless
/// identifier-safe), its body rewritten and its key assignment dropped.
pub open spec fn canon_anon_seq(
    vs: Seq<Value>,
    out: Seq<Entry>,
    files: Seq<FileSchema>,
    elem: MessageSchema,
    key: Seq<char>,
) -> bool
    decreases vs,
{
    if vs.len() == 0 {
        out.len() == 0
    } else {
        &&& out.len() > 0
        &&& anon_one(vs[0], out[0], files, elem, key)
        &&& canon_anon_seq(
            vs.subrange(1, vs.len() as int),
            out.subrange(1, out.len() as int),
            files,
            elem,
            key,
        )
    }
}

/// The keyed block one element of an eligible anonymous list becomes.
pub open spec fn anon_one(v: Value, f: Entry, files: Seq<FileSchema>, elem: MessageSchema, key: Seq<char>) -> bool
    decreases v,
{
    match v {
        Value::Block(bv) => match key_scan(bv.entries@, 0, key, None) {
            Some(k) => f matches Entry::Block(fb) && fb.pos == bv.pos && fb.name@ == k
                && fb.name_quoted == !ident_safe(k) && fb.leading_comments@.len() == 0
                && canon_drop_seq(bv.entries@, fb.entries@, files, elem, key, k, seq![]),
            None => false,
        },
        _ => false,
    }
}

// ---------------------------------------------------------------- lookups

/// The position of the first field of `m` named `name`.
fn field_index(m: &MessageSchema, name: &str) -> (r: Option<usize>)
    ensures
        match field_named(*m, name@) {
            Some(fd) => r matches Some(k) && k < m.fields@.len() && m.fields@[k as int] == fd,
            None => r is None,
        },
{
    let mut k: usize = 0;
    while k < m.fields.len()
        invariant
            k <= m.fields@.len(),
            field_named(*m, name@) == field_from(m.fields@, name@, k as int),
        decreases m.fields@.len() - k,
    {
        if crate::text::str_is(&m.fields[k].name, name) {
            return Some(k);
        }
        k = k + 1;
    }
    None
}

/// Where the message named `full` is: its file and its place there.
fn message_index(files: &[FileSchema], full: &str) -> (r: Option<(usize, usize)>)
    ensures
        match message_named(files@, full@) {
            Some(mm) => r matches Some((i, j)) && i < files@.len() && j
                < files@[i as int].messages@.len() && files@[i as int].messages@[j as int] == mm,
            None => r is None,
        },
{
    let mut i: usize = 0;
    while i < files.len()
        invariant
            i <= files@.len(),
            message_named(files@, full@) == message_from(files@, full@, i as int, 0),
        decreases files@.len() - i,
    {
        let ms = &files[i].messages;
        let mut j: usize = 0;
        while j < ms.len()
            invariant
                i < files@.len(),
                ms@ == files@[i as int].messages@,
                j <= ms@.len(),
                message_named(files@, full@) == message_from(files@, full@, i as int, j as int),
            decreases ms@.len() - j,
        {
            if crate::text::str_is(&ms[j].full_name, full) {
                return Some((i, j));
            }
            j = j + 1;
        }
        i = i + 1;
    }
    None
}

/// Where the element message of a message-typed field is.
fn elem_index(files: &[FileSchema], fd: &FieldSchema) -> (r: Option<(usize, usize)>)
    ensures
        match elem_of(files@, *fd) {
            Some(mm) => r matches Some((i, j)) && i < files@.len() && j
                < files@[i as int].messages@.len() && files@[i as int].messages@[j as int] == mm,
            None => r is None,
        },
{
    match &fd.kind {
        FieldKind::Message(r) => message_index(files, r.full_name.as_str()),
        _ => None,
    }
}

/// Where the value message of a map field of messages is.
fn map_value_index(files: &[FileSchema], fd: &FieldSchema) -> (r: Option<(usize, usize)>)
    ensures
        match map_value_of(files@, *fd) {
            Some(mm) => r matches Some((i, j)) && i < files@.len() && j
                < files@[i as int].messages@.len() && files@[i as int].messages@[j as int] == mm,
            None => r is None,
        },
{
    match elem_index(files, fd) {
        Some((i, j)) => {
            let entry = &files[i].messages[j];
            proof {
                reveal_strlit("value");
            }
            match field_index(entry, "value") {
                Some(k) => elem_index(files, &entry.fields[k]),
                None => None,
            }
        },
        None => None,
    }
}

/// The key field's name of a keyed repeated field, if `fd` is one.
pub fn key_field(fd: &FieldSchema) -> (r: Option<String>)
    ensures
        match key_of(*fd) {
            Some(k) => r matches Some(s) && s@ == k,
            None => r is None,
        },
{
    if !fd.is_list || fd.is_map {
        return None;
    }
    match &fd.kind {
        FieldKind::Message(m) => match &fd.key {
            Some(k) => {
                if k.as_str().is_empty() {
                    return None;
                }
                let mut t: usize = 0;
                while t < m.fields.len()
                    invariant
                        t <= m.fields@.len(),
                        fd.kind == FieldKind::Message(*m),
                        fd.key == Some(*k),
                        k@.len() > 0,
                        fd.is_list && !fd.is_map,
                        find_candidate(m.fields@, k@, 0) == find_candidate(m.fields@, k@, t as int),
                    decreases m.fields@.len() - t,
                {
                    let kf = &m.fields[t];
                    if crate::text::str_is(&kf.name, k.as_str()) {
                        if kf.is_list || kf.is_map || !kf.is_string {
                            return None;
                        }
                        return Some(owned(kf.name.as_str()));
                    }
                    t = t + 1;
                }
                None
            },
            None => None,
        },
        _ => None,
    }
}

// ---------------------------------------------------------------- the rewrite

/// `es` rewritten entry by entry as entries of message `m`.
#[verifier::loop_isolation(false)]
fn canon_entries(es: Vec<Entry>, files: &[FileSchema], m: &MessageSchema) -> (out: Vec<Entry>)
    ensures
        canon_seq(es@, out@, files@, *m),
    decreases es, 1int,
{
    let ghost es0 = es;
    let ghost orig = es@;
    let mut rest = es;
    let mut out: Vec<Entry> = Vec::new();
    let ghost mut done: int = 0;
    assert forall|t: Seq<Entry>| canon_seq(rest@, t, files@, *m) implies #[trigger] canon_seq(
        orig,
        out@ + t,
        files@,
        *m,
    ) by {
        assert(out@ + t =~= t);
    }
    while rest.len() > 0
        invariant
            es0@ == orig,
            0 <= done <= orig.len(),
            rest@ == orig.subrange(done, orig.len() as int),
            forall|t: Seq<Entry>|
                canon_seq(rest@, t, files@, *m) ==> #[trigger] canon_seq(
                    orig,
                    out@ + t,
                    files@,
                    *m,
                ),
        decreases rest@.len(),
    {
        let ghost r0 = rest@;
        let ghost o0 = out@;
        let e = rest.remove(0);
        proof {
            assert(r0[0] == orig[done]);
            assert(decreases_to!(es0 => es0@));
            assert(decreases_to!(es0@ => es0@[done]));
        }
        let f = canon_entry(e, files, m);
        out.push(f);
        proof {
            assert(rest@ =~= r0.subrange(1, r0.len() as int));
            assert forall|t: Seq<Entry>| canon_seq(rest@, t, files@, *m) implies #[trigger] canon_seq(
                orig,
                out@ + t,
                files@,
                *m,
            ) by {
                let ft = seq![f] + t;
                assert(ft[0] == f);
                assert(ft.subrange(1, ft.len() as int) =~= t);
                assert(canon_seq(r0, ft, files@, *m));
                assert(o0 + ft =~= out@ + t);
            }
            done = done + 1;
        }
    }
    proof {
        assert(canon_seq(rest@, seq![], files@, *m));
        assert(out@ + seq![] =~= out@);
    }
    out
}

/// The elements of a list of messages `elem`, each block rewritten.
#[verifier::loop_isolation(false)]
fn canon_list_blocks(vs: Vec<Value>, files: &[FileSchema], elem: &MessageSchema) -> (ws: Vec<Value>)
    ensures
        canon_list(vs@, ws@, files@, *elem),
    decreases vs, 1int,
{
    let ghost vs0 = vs;
    let ghost orig = vs@;
    let mut rest = vs;
    let mut out: Vec<Value> = Vec::new();
    let ghost mut done: int = 0;
    assert forall|t: Seq<Value>| canon_list(rest@, t, files@, *elem) implies #[trigger] canon_list(
        orig,
        out@ + t,
        files@,
        *elem,
    ) by {
        assert(out@ + t =~= t);
    }
    while rest.len() > 0
        invariant
            vs0@ == orig,
            0 <= done <= orig.len(),
            rest@ == orig.subrange(done, orig.len() as int),
            forall|t: Seq<Value>|
                canon_list(rest@, t, files@, *elem) ==> #[trigger] canon_list(
                    orig,
                    out@ + t,
                    files@,
                    *elem,
                ),
        decreases rest@.len(),
    {
        let ghost r0 = rest@;
        let ghost o0 = out@;
        let v = rest.remove(0);
        proof {
            assert(r0[0] == orig[done]);
            assert(decreases_to!(vs0 => vs0@));
            assert(decreases_to!(vs0@ => vs0@[done]));
        }
        let w = match v {
            Value::Block(bv) => {
                let BlockVal { pos, entries } = bv;
                let entries2 = canon_entries(entries, files, elem);
                Value::Block(BlockVal { pos, entries: entries2 })
            },
            other => other,
        };
        out.push(w);
        proof {
            assert(rest@ =~= r0.subrange(1, r0.len() as int));
            assert forall|t: Seq<Value>| canon_list(rest@, t, files@, *elem) implies #[trigger] canon_list(
                orig,
                out@ + t,
                files@,
                *elem,
            ) by {
                let wt = seq![w] + t;
                assert(wt[0] == w);
                assert(wt.subrange(1, wt.len() as int) =~= t);
                assert(canon_list(r0, wt, files@, *elem));
                assert(o0 + wt =~= out@ + t);
            }
            done = done + 1;
        }
    }
    proof {
        assert(canon_list(rest@, seq![], files@, *elem));
        assert(out@ + seq![] =~= out@);
    }
    out
}

/// The entries of a map's block, each message value rewritten as `vm`.
#[verifier::loop_isolation(false)]
fn canon_map_entries(es: Vec<Entry>, files: &[FileSchema], vm: &MessageSchema) -> (out: Vec<Entry>)
    ensures
        canon_map_seq(es@, out@, files@, *vm),
    decreases es, 1int,
{
    let ghost es0 = es;
    let ghost orig = es@;
    let mut rest = es;
    let mut out: Vec<Entry> = Vec::new();
    let ghost mut done: int = 0;
    assert forall|t: Seq<Entry>| canon_map_seq(rest@, t, files@, *vm) implies #[trigger] canon_map_seq(
        orig,
        out@ + t,
        files@,
        *vm,
    ) by {
        assert(out@ + t =~= t);
    }
    while rest.len() > 0
        invariant
            es0@ == orig,
            0 <= done <= orig.len(),
            rest@ == orig.subrange(done, orig.len() as int),
            forall|t: Seq<Entry>|
                canon_map_seq(rest@, t, files@, *vm) ==> #[trigger] canon_map_seq(
                    orig,
                    out@ + t,
                    files@,
                    *vm,
                ),
        decreases rest@.len(),
    {
        let ghost r0 = rest@;
        let ghost o0 = out@;
        let e = rest.remove(0);
        proof {
            assert(r0[0] == orig[done]);
            assert(decreases_to!(es0 => es0@));
            assert(decreases_to!(es0@ => es0@[done]));
        }
        let f = match e {
            Entry::MapEntry(me) => {
                let MapEntry { pos, key, value, leading_comments, trailing_comment } = me;
                match value {
                    Value::Block(inner) => {
                        let BlockVal { pos: ipos, entries } = inner;
                        let entries2 = canon_entries(entries, files, vm);
                        Entry::MapEntry(
                            MapEntry {
                                pos,
                                key,
                                value: Value::Block(BlockVal { pos: ipos, entries: entries2 }),
                                leading_comments,
                                trailing_comment,
                            },
                        )
                    },
                    other => Entry::MapEntry(
                        MapEntry { pos, key, value: other, leading_comments, trailing_comment },
                    ),
                }
            },
            other => other,
        };
        out.push(f);
        proof {
            assert(rest@ =~= r0.subrange(1, r0.len() as int));
            assert forall|t: Seq<Entry>| canon_map_seq(rest@, t, files@, *vm) implies #[trigger] canon_map_seq(
                orig,
                out@ + t,
                files@,
                *vm,
            ) by {
                let ft = seq![f] + t;
                assert(ft[0] == f);
                assert(ft.subrange(1, ft.len() as int) =~= t);
                assert(canon_map_seq(r0, ft, files@, *vm));
                assert(o0 + ft =~= out@ + t);
            }
            done = done + 1;
        }
    }
    proof {
        assert(canon_map_seq(rest@, seq![], files@, *vm));
        assert(out@ + seq![] =~= out@);
    }
    out
}

/// A canonical entry keeps its comments, and is an agreeing key
/// assignment exactly when it was one, unchanged then.
proof fn lemma_canon_agreeing(
    e: Entry,
    f: Entry,
    files: Seq<FileSchema>,
    m: MessageSchema,
    key: Seq<char>,
    name: Seq<char>,
)
    requires
        canon_one(e, f, files, m, seq![]),
    ensures
        comments_of(f) == comments_of(e),
        is_agreeing_key(f, key, name) == is_agreeing_key(e, key, name),
        is_agreeing_key(e, key, name) ==> same_but_comments(e, f, comments_of(e)),
{
    if let Entry::Assignment(a) = e {
        if !a.key_quoted {
            if let Some(fd) = field_named(m, a.key@) {
                assert(canon_assign(a, f, files, fd, seq![]));
            }
        }
    }
}

/// A canonical entry with other leading comments in front is the
/// canonical entry with those comments as `extra`.
proof fn lemma_recomment(
    e: Entry,
    c0: Entry,
    d0: Entry,
    files: Seq<FileSchema>,
    m: MessageSchema,
    p: Seq<Comment>,
)
    requires
        canon_one(e, c0, files, m, seq![]),
        same_but_comments(c0, d0, p + comments_of(c0)),
    ensures
        canon_one(e, d0, files, m, p),
{
    lemma_canon_agreeing(e, c0, files, m, seq![], seq![]);
    assert(with_extra(p, comments_of(e)) =~= p + comments_of(e));
    if let Entry::Assignment(a) = e {
        assert(with_extra(p, a.leading_comments@) =~= p + a.leading_comments@);
        if !a.key_quoted {
            if let Some(fd) = field_named(m, a.key@) {
                assert(canon_assign(a, c0, files, fd, seq![]));
                assert(canon_assign(a, d0, files, fd, p));
            }
        }
    }
    if let Entry::Block(b) = e {
        assert(with_extra(p, b.leading_comments@) =~= p + b.leading_comments@);
    }
}

/// Rewriting a body and then dropping its agreeing key assignments is the
/// canonical keyed body.
proof fn lemma_canon_then_drop(
    es: Seq<Entry>,
    c: Seq<Entry>,
    d: Seq<Entry>,
    files: Seq<FileSchema>,
    m: MessageSchema,
    key: Seq<char>,
    name: Seq<char>,
    pending: Seq<Comment>,
)
    requires
        canon_seq(es, c, files, m),
        dropped_keys(c, d, key, name, pending),
    ensures
        canon_drop_seq(es, d, files, m, key, name, pending),
    decreases es.len(),
{
    if es.len() > 0 {
        lemma_canon_agreeing(es[0], c[0], files, m, key, name);
        let es1 = es.subrange(1, es.len() as int);
        let c1 = c.subrange(1, c.len() as int);
        assert(c.drop_first() =~= c1);
        if is_agreeing_key(es[0], key, name) {
            lemma_canon_then_drop(es1, c1, d, files, m, key, name, pending + comments_of(es[0]));
        } else {
            lemma_recomment(es[0], c[0], d[0], files, m, pending);
            assert(d.drop_first() =~= d.subrange(1, d.len() as int));
            lemma_canon_then_drop(es1, c1, d.drop_first(), files, m, key, name, seq![]);
        }
    }
}

/// A keyed entry's body: rewritten as message `elem`, then without its
/// agreeing `key = "name"` assignments.
fn keyed_body(entries: Vec<Entry>, files: &[FileSchema], elem: &MessageSchema, key: &str, name: &str) -> (out: Vec<Entry>)
    ensures
        canon_drop_seq(entries@, out@, files@, *elem, key@, name@, seq![]),
    decreases entries, 2int,
{
    let ghost e0 = entries@;
    let c = canon_entries(entries, files, elem);
    let ghost cv = c@;
    let d = drop_key_assignments(c, key, name);
    proof {
        lemma_canon_then_drop(e0, cv, d@, files@, *elem, key@, name@, seq![]);
    }
    d
}

/// One entry of message `m`, rewritten.
fn canon_entry(e: Entry, files: &[FileSchema], m: &MessageSchema) -> (f: Entry)
    ensures
        canon_one(e, f, files@, *m, seq![]),
    decreases e, 1int,
{
    match e {
        Entry::Assignment(a) => {
            if a.key_quoted {
                return Entry::Assignment(a);
            }
            match field_index(m, a.key.as_str()) {
                None => Entry::Assignment(a),
                Some(k) => canon_assignment(a, files, &m.fields[k]),
            }
        },
        Entry::Block(b) => {
            if b.name_quoted {
                return Entry::Block(b);
            }
            let k = match field_index(m, b.name.as_str()) {
                None => {
                    return Entry::Block(b);
                },
                Some(k) => k,
            };
            let fd = &m.fields[k];
            match key_field(fd) {
                Some(key) => match elem_index(files, fd) {
                    Some((i, j)) => {
                        let Block { pos, name, name_quoted, entries, leading_comments } = b;
                        let entries2 = canon_keyed_entries(
                            entries,
                            files,
                            &files[i].messages[j],
                            key.as_str(),
                        );
                        Entry::Block(Block { pos, name, name_quoted, entries: entries2, leading_comments })
                    },
                    None => Entry::Block(b),
                },
                None => {
                    if !fd.is_list && !fd.is_map {
                        match elem_index(files, fd) {
                            Some((i, j)) => {
                                let Block { pos, name, name_quoted, entries, leading_comments } = b;
                                let entries2 = canon_entries(entries, files, &files[i].messages[j]);
                                Entry::Block(
                                    Block { pos, name, name_quoted, entries: entries2, leading_comments },
                                )
                            },
                            None => Entry::Block(b),
                        }
                    } else {
                        Entry::Block(b)
                    }
                },
            }
        },
        Entry::MapEntry(me) => Entry::MapEntry(me),
    }
}

/// An assignment to field `fd`, rewritten.
fn canon_assignment(a: Assignment, files: &[FileSchema], fd: &FieldSchema) -> (f: Entry)
    ensures
        canon_assign(a, f, files@, *fd, seq![]),
    decreases a, 1int,
{
    if fd.is_map {
        match map_value_index(files, fd) {
            Some((i, j)) => {
                let vm = &files[i].messages[j];
                let Assignment { pos, key, key_quoted, value, leading_comments, trailing_comment } = a;
                match value {
                    Value::Block(bv) => {
                        let BlockVal { pos: bpos, entries } = bv;
                        let entries2 = canon_map_entries(entries, files, vm);
                        Entry::Assignment(
                            Assignment {
                                pos,
                                key,
                                key_quoted,
                                value: Value::Block(BlockVal { pos: bpos, entries: entries2 }),
                                leading_comments,
                                trailing_comment,
                            },
                        )
                    },
                    other => Entry::Assignment(
                        Assignment { pos, key, key_quoted, value: other, leading_comments, trailing_comment },
                    ),
                }
            },
            None => Entry::Assignment(a),
        }
    } else if fd.is_list {
        match elem_index(files, fd) {
            None => Entry::Assignment(a),
            Some((i, j)) => {
                let elem = &files[i].messages[j];
                let kf = key_field(fd);
                let Assignment { pos, key, key_quoted, value, leading_comments, trailing_comment } = a;
                match value {
                    Value::List(lv) => match kf {
                        Some(k) => canon_anonymous_keyed(
                            pos,
                            key,
                            key_quoted,
                            leading_comments,
                            trailing_comment,
                            lv,
                            files,
                            elem,
                            k.as_str(),
                        ),
                        None => {
                            let ListVal { pos: lpos, elements } = lv;
                            let ws = canon_list_blocks(elements, files, elem);
                            Entry::Assignment(
                                Assignment {
                                    pos,
                                    key,
                                    key_quoted,
                                    value: Value::List(ListVal { pos: lpos, elements: ws }),
                                    leading_comments,
                                    trailing_comment,
                                },
                            )
                        },
                    },
                    Value::Block(bv) => match kf {
                        Some(k) => {
                            let BlockVal { pos: _, entries } = bv;
                            let entries2 = canon_keyed_entries(entries, files, elem, k.as_str());
                            Entry::Block(
                                Block {
                                    pos,
                                    name: key,
                                    name_quoted: false,
                                    entries: entries2,
                                    leading_comments,
                                },
                            )
                        },
                        None => Entry::Assignment(
                            Assignment {
                                pos,
                                key,
                                key_quoted,
                                value: Value::Block(bv),
                                leading_comments,
                                trailing_comment,
                            },
                        ),
                    },
                    other => Entry::Assignment(
                        Assignment { pos, key, key_quoted, value: other, leading_comments, trailing_comment },
                    ),
                }
            },
        }
    } else {
        match elem_index(files, fd) {
            Some((i, j)) => {
                let inner = &files[i].messages[j];
                let Assignment { pos, key, key_quoted, value, leading_comments, trailing_comment } = a;
                match value {
                    Value::Block(bv) => {
                        let BlockVal { pos: bpos, entries } = bv;
                        let entries2 = canon_entries(entries, files, inner);
                        Entry::Assignment(
                            Assignment {
                                pos,
                                key,
                                key_quoted,
                                value: Value::Block(BlockVal { pos: bpos, entries: entries2 }),
                                leading_comments,
                                trailing_comment,
                            },
                        )
                    },
                    other => Entry::Assignment(
                        Assignment { pos, key, key_quoted, value: other, leading_comments, trailing_comment },
                    ),
                }
            },
            None => Entry::Assignment(a),
        }
    }
}

/// The entries of a keyed field's block, normalized.
#[verifier::loop_isolation(false)]
fn canon_keyed_entries(es: Vec<Entry>, files: &[FileSchema], elem: &MessageSchema, key: &str) -> (out: Vec<Entry>)
    ensures
        canon_keyed_seq(es@, out@, files@, *elem, key@),
    decreases es, 1int,
{
    let ghost es0 = es;
    let ghost orig = es@;
    let mut rest = es;
    let mut out: Vec<Entry> = Vec::new();
    let ghost mut done: int = 0;
    assert forall|t: Seq<Entry>| canon_keyed_seq(rest@, t, files@, *elem, key@) implies #[trigger] canon_keyed_seq(
        orig,
        out@ + t,
        files@,
        *elem,
        key@,
    ) by {
        assert(out@ + t =~= t);
    }
    while rest.len() > 0
        invariant
            es0@ == orig,
            0 <= done <= orig.len(),
            rest@ == orig.subrange(done, orig.len() as int),
            forall|t: Seq<Entry>|
                canon_keyed_seq(rest@, t, files@, *elem, key@) ==> #[trigger] canon_keyed_seq(
                    orig,
                    out@ + t,
                    files@,
                    *elem,
                    key@,
                ),
        decreases rest@.len(),
    {
        let ghost r0 = rest@;
        let ghost o0 = out@;
        let e = rest.remove(0);
        proof {
            assert(r0[0] == orig[done]);
            assert(decreases_to!(es0 => es0@));
            assert(decreases_to!(es0@ => es0@[done]));
        }
        let f = match e {
            Entry::Assignment(a) => {
                let Assignment { pos, key: name, key_quoted, value, leading_comments, trailing_comment } = a;
                match value {
                    Value::Block(bv) => {
                        let BlockVal { pos: _, entries } = bv;
                        let quoted = key_quoted && !ident_safe_entry_name(name.as_str());
                        let body = keyed_body(entries, files, elem, key, name.as_str());
                        Entry::Block(Block { pos, name, name_quoted: quoted, entries: body, leading_comments })
                    },
                    other => Entry::Assignment(
                        Assignment {
                            pos,
                            key: name,
                            key_quoted,
                            value: other,
                            leading_comments,
                            trailing_comment,
                        },
                    ),
                }
            },
            Entry::Block(b) => {
                let Block { pos, name, name_quoted, entries, leading_comments } = b;
                let quoted = name_quoted && !ident_safe_entry_name(name.as_str());
                let body = keyed_body(entries, files, elem, key, name.as_str());
                Entry::Block(Block { pos, name, name_quoted: quoted, entries: body, leading_comments })
            },
            other => other,
        };
        assert(keyed_one(r0[0], f, files@, *elem, key@));
        out.push(f);
        proof {
            assert(rest@ =~= r0.subrange(1, r0.len() as int));
            assert forall|t: Seq<Entry>| canon_keyed_seq(rest@, t, files@, *elem, key@) implies #[trigger] canon_keyed_seq(
                orig,
                out@ + t,
                files@,
                *elem,
                key@,
            ) by {
                let ft = seq![f] + t;
                assert(ft[0] == f);
                assert(ft.subrange(1, ft.len() as int) =~= t);
                assert(canon_keyed_seq(r0, ft, files@, *elem, key@));
                assert(o0 + ft =~= out@ + t);
            }
            done = done + 1;
        }
    }
    proof {
        assert(canon_keyed_seq(rest@, seq![], files@, *elem, key@));
        assert(out@ + seq![] =~= out@);
    }
    out
}

proof fn lemma_anon_keys_prefix(s: Seq<Value>, key: Seq<char>, n: int)
    requires
        0 <= n <= s.len(),
    ensures
        anon_keys(s, key) matches Some(ws) ==> ws.len() == s.len() && anon_keys(
            s.subrange(0, n),
            key,
        ) == Some(ws.subrange(0, n)),
        anon_keys(s.subrange(0, n), key) is None ==> anon_keys(s, key) is None,
    decreases s.len(),
{
    if n == s.len() {
        assert(s.subrange(0, n) =~= s);
        if let Some(ws) = anon_keys(s, key) {
            if s.len() > 0 {
                lemma_anon_keys_prefix(s.drop_last(), key, s.len() - 1);
            }
            assert(ws.subrange(0, n) =~= ws);
        }
    } else {
        lemma_anon_keys_prefix(s.drop_last(), key, n);
        assert(s.drop_last().subrange(0, n) =~= s.subrange(0, n));
        if let Some(ws) = anon_keys(s, key) {
            let ks = anon_keys(s.drop_last(), key)->Some_0;
            assert(ws =~= ks.push(ws.last()));
            assert(ws.subrange(0, n) =~= ks.subrange(0, n));
        }
    }
}

proof fn lemma_anon_keys_elem(s: Seq<Value>, key: Seq<char>, i: int)
    requires
        anon_keys(s, key) is Some,
        0 <= i < s.len(),
    ensures
        s[i] matches Value::Block(bv) && key_scan(bv.entries@, 0, key, None) matches Some(k) && k
            == anon_keys(s, key)->Some_0[i] && k.len() > 0,
{
    let ws = anon_keys(s, key)->Some_0;
    lemma_anon_keys_prefix(s, key, i + 1);
    assert(ws.len() == s.len());
    let p = s.subrange(0, i + 1);
    assert(p.last() == s[i]);
    assert(p.drop_last() =~= s.subrange(0, i));
    assert(anon_keys(p, key) == Some(ws.subrange(0, i + 1)));
    match anon_keys(p.drop_last(), key) {
        Some(ks) => {
            match p.last() {
                Value::Block(bv) => {
                    match key_scan(bv.entries@, 0, key, None) {
                        Some(k) => {
                            assert(k.len() > 0);
                            assert(ks.push(k) == ws.subrange(0, i + 1));
                            assert(i + 1 <= ws.len());
                            assert(ws.subrange(0, i + 1).len() == i + 1);
                            assert(ks.push(k).len() == ks.len() + 1);
                            assert(ks.len() == i);
                            assert(ks.push(k)[i] == k);
                            assert(ws.subrange(0, i + 1)[i] == ws[i]);
                        },
                        None => {},
                    }
                },
                _ => {},
            }
        },
        None => {},
    }
}

/// Whether an anonymous list of a keyed field can be written keyed.
fn anon_eligible_of(vs: &Vec<Value>, key: &str) -> (r: bool)
    ensures
        r == anon_eligible(vs@, key@),
{
    let mut keys: Vec<String> = Vec::new();
    let mut t: usize = 0;
    while t < vs.len()
        invariant
            t <= vs@.len(),
            anon_keys(vs@.subrange(0, t as int), key@) == Some(keys@.map_values(|x: String| x@)),
            keys@.map_values(|x: String| x@).no_duplicates(),
        decreases vs@.len() - t,
    {
        let ghost ks = keys@.map_values(|x: String| x@);
        let ghost p = vs@.subrange(0, t + 1);
        proof {
            assert(p.last() == vs@[t as int]);
            assert(p.drop_last() =~= vs@.subrange(0, t as int));
        }
        match &vs[t] {
            Value::Block(bv) => match explicit_key_of(bv.entries.as_slice(), key) {
                Some(k) => {
                    if k.as_str().is_empty() {
                        proof {
                            lemma_anon_keys_prefix(vs@, key@, t + 1);
                        }
                        return false;
                    }
                    let mut dup = false;
                    let mut u: usize = 0;
                    while u < keys.len()
                        invariant
                            u <= keys@.len(),
                            dup == (exists|w: int| 0 <= w < u && keys@[w]@ == k@),
                        decreases keys@.len() - u,
                    {
                        if crate::text::str_is(&keys[u], k.as_str()) {
                            dup = true;
                        }
                        u = u + 1;
                    }
                    if dup {
                        proof {
                            lemma_anon_keys_prefix(vs@, key@, t + 1);
                            let w = choose|w: int| 0 <= w < keys@.len() && keys@[w]@ == k@;
                            if let Some(ws) = anon_keys(vs@, key@) {
                                let pk = ks.push(k@);
                                assert(ws.subrange(0, t + 1) == pk);
                                assert(ws[w] == pk[w] && ws[t as int] == pk[t as int]);
                                assert(pk[w] == ks[w]);
                                assert(ks[w] == keys@[w]@);
                            }
                        }
                        return false;
                    }
                    keys.push(k);
                    proof {
                        assert(keys@.map_values(|x: String| x@) =~= ks.push(k@));
                        let nk = ks.push(k@);
                        assert forall|a: int, b: int| 0 <= a < b < nk.len() implies nk[a] != nk[b] by {
                            if b == nk.len() - 1 {
                                assert(nk[a] == keys@[a]@);
                            } else {
                                assert(nk[a] == ks[a] && nk[b] == ks[b]);
                            }
                        }
                    }
                },
                None => {
                    proof {
                        lemma_anon_keys_prefix(vs@, key@, t + 1);
                    }
                    return false;
                },
            },
            _ => {
                proof {
                    lemma_anon_keys_prefix(vs@, key@, t + 1);
                }
                return false;
            },
        }
        t = t + 1;
    }
    assert(vs@.subrange(0, vs@.len() as int) =~= vs@);
    true
}

/// A keyed field's anonymous list `name = [ ... ]`: written as a keyed
/// block when every element has its own explicit key, otherwise kept as a
/// list with each element's body rewritten.
#[verifier::loop_isolation(false)]
fn canon_anonymous_keyed(
    pos: crate::pxf::token::Position,
    key: String,
    key_quoted: bool,
    leading_comments: Vec<Comment>,
    trailing_comment: String,
    lv: ListVal,
    files: &[FileSchema],
    elem: &MessageSchema,
    key_name: &str,
) -> (f: Entry)
    ensures
        anon_eligible(lv.elements@, key_name@) ==> (f matches Entry::Block(fb) && fb.pos == pos
            && fb.name == key && !fb.name_quoted && fb.leading_comments == leading_comments
            && canon_anon_seq(lv.elements@, fb.entries@, files@, *elem, key_name@)),
        !anon_eligible(lv.elements@, key_name@) ==> (f matches Entry::Assignment(fa) && fa.pos
            == pos && fa.key == key && fa.key_quoted == key_quoted && fa.leading_comments
            == leading_comments && fa.trailing_comment == trailing_comment && (fa.value matches Value::List(
            flv,
        ) && flv.pos == lv.pos && canon_list(lv.elements@, flv.elements@, files@, *elem))),
    decreases lv, 1int,
{
    let ghost lv0 = lv;
    let eligible = anon_eligible_of(&lv.elements, key_name);
    let ListVal { pos: lpos, elements } = lv;
    if !eligible {
        let ws = canon_list_blocks(elements, files, elem);
        return Entry::Assignment(
            Assignment {
                pos,
                key,
                key_quoted,
                value: Value::List(ListVal { pos: lpos, elements: ws }),
                leading_comments,
                trailing_comment,
            },
        );
    }
    let ghost orig = elements@;
    let mut rest = elements;
    let mut out: Vec<Entry> = Vec::new();
    let ghost mut done: int = 0;
    assert forall|t: Seq<Entry>| canon_anon_seq(rest@, t, files@, *elem, key_name@) implies #[trigger] canon_anon_seq(
        orig,
        out@ + t,
        files@,
        *elem,
        key_name@,
    ) by {
        assert(out@ + t =~= t);
    }
    while rest.len() > 0
        invariant
            lv0.elements@ == orig,
            anon_keys(orig, key_name@) is Some,
            0 <= done <= orig.len(),
            rest@ == orig.subrange(done, orig.len() as int),
            forall|t: Seq<Entry>|
                canon_anon_seq(rest@, t, files@, *elem, key_name@) ==> #[trigger] canon_anon_seq(
                    orig,
                    out@ + t,
                    files@,
                    *elem,
                    key_name@,
                ),
        decreases rest@.len(),
    {
        let ghost r0 = rest@;
        let ghost o0 = out@;
        let v = rest.remove(0);
        proof {
            assert(r0[0] == orig[done]);
            lemma_anon_keys_elem(orig, key_name@, done);
            assert(decreases_to!(lv0 => lv0.elements));
            assert(decreases_to!(lv0.elements => lv0.elements@));
            assert(decreases_to!(lv0.elements@ => lv0.elements@[done]));
        }
        let f = match v {
            Value::Block(bv) => {
                let BlockVal { pos: bpos, entries } = bv;
                let k = match explicit_key_of(entries.as_slice(), key_name) {
                    Some(k) => k,
                    None => {
                        proof {
                            assert(false);
                        }
                        String::new()
                    },
                };
                let quoted = !ident_safe_entry_name(k.as_str());
                let body = keyed_body(entries, files, elem, key_name, k.as_str());
                Entry::Block(Block { pos: bpos, name: k, name_quoted: quoted, entries: body, leading_comments: Vec::new() })
            },
            _ => {
                proof {
                    assert(false);
                }
                Entry::Block(Block { pos: lpos, name: String::new(), name_quoted: false, entries: Vec::new(), leading_comments: Vec::new() })
            },
        };
        assert(anon_one(r0[0], f, files@, *elem, key_name@));
        out.push(f);
        proof {
            assert(rest@ =~= r0.subrange(1, r0.len() as int));
            assert forall|t: Seq<Entry>| canon_anon_seq(rest@, t, files@, *elem, key_name@) implies #[trigger] canon_anon_seq(
                orig,
                out@ + t,
                files@,
                *elem,
                key_name@,
            ) by {
                let ft = seq![f] + t;
                assert(ft[0] == f);
                assert(ft.subrange(1, ft.len() as int) =~= t);
                assert(canon_anon_seq(r0, ft, files@, *elem, key_name@));
                assert(o0 + ft =~= out@ + t);
            }
            done = done + 1;
        }
    }
    proof {
        assert(canon_anon_seq(rest@, seq![], files@, *elem, key_name@));
        assert(out@ + seq![] =~= out@);
    }
    Entry::Block(Block { pos, name: key, name_quoted: false, entries: out, leading_comments })
}

/// Rewrites `doc` to the canonical keyed form, `desc` being the message of
/// its body and `files` the schema its field types are looked up in. Per
/// keyed repeated field it writes an eligible anonymous list (every
/// element with one non-empty, distinct explicit key) as a keyed block
/// without the now implicit key assignments, spells `name = { ... }`
/// entries as `name { ... }`, unquotes identifier-safe quoted entry names,
/// and drops agreeing explicit key assignments inside named entries.
/// Ineligible lists, and entries that do not resolve against the schema,
/// are left as they are, so formatting an invalid document loses nothing.
pub fn canonicalize_keyed(doc: &mut Document, files: &[FileSchema], desc: &MessageSchema)
    ensures
        canon_seq(old(doc).entries@, final(doc).entries@, files@, *desc),
        final(doc).type_url == old(doc).type_url,
        final(doc).directives == old(doc).directives,
        final(doc).datasets == old(doc).datasets,
        final(doc).tables == old(doc).tables,
        final(doc).protos == old(doc).protos,
        final(doc).body_offset == old(doc).body_offset,
        final(doc).leading_comments == old(doc).leading_comments,
{
    let mut entries: Vec<Entry> = Vec::new();
    std::mem::swap(&mut entries, &mut doc.entries);
    doc.entries = canon_entries(entries, files, desc);
}


} // verus!
