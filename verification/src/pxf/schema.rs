//! Schema-level conformance checks. A schema bound for PXF use must not
//! declare a field, oneof or enum value named like a PXF value keyword
//! (`null` / `true` / `false`), must place `(pxf.key)` only on repeated
//! message fields whose element has a singular string field of that name,
//! must place `(pxf.default)` only where one literal can denote the value
//! (and on at most one member of a oneof), and must not put
//! `(pxf.required)` on a oneof member. The checks run over the import
//! closure of a file; the result is sorted by file and element.
//!
//! The schema is described by [`FileSchema`] and the types below it: the
//! parts of a descriptor set that the checks read, as plain values.
use vstd::prelude::*;

use crate::text::{decimal_chars, owned, push_decimal, push_str, str_is};

verus! {

/// A name that lexes as a PXF value keyword (`null` / `true` / `false`), so
/// that a schema element called so is unreachable from PXF text. The check
/// is case-sensitive.
pub open spec fn is_reserved_name(name: Seq<char>) -> bool {
    name == "null"@ || name == "true"@ || name == "false"@
}

/// Whether `name` is a PXF value keyword.
pub fn is_reserved(name: &str) -> (r: bool)
    ensures
        r == is_reserved_name(name@),
{
    let n = owned(name);
    str_is(&n, "null") || str_is(&n, "true") || str_is(&n, "false")
}

/// The directive names held back for future allocation.
pub open spec fn future_reserved_directive(name: Seq<char>) -> bool {
    name == "table"@ || name == "datasource"@ || name == "view"@ || name == "procedure"@ || name
        == "function"@ || name == "permissions"@
}

/// Whether `name` is one of the directive names reserved for future
/// allocation: `table`, `datasource`, `view`, `procedure`, `function`,
/// `permissions`. A decoder rejects these as unknown reserved directives.
pub fn is_future_reserved_directive(name: &str) -> (r: bool)
    ensures
        r == future_reserved_directive(name@),
{
    let n = owned(name);
    str_is(&n, "table") || str_is(&n, "datasource") || str_is(&n, "view") || str_is(
        &n,
        "procedure",
    ) || str_is(&n, "function") || str_is(&n, "permissions")
}

/// The message types a single PXF literal can denote: `Timestamp`,
/// `Duration`, the nine `*Value` wrappers and the three arbitrary-precision
/// types.
pub open spec fn defaultable_message(full: Seq<char>) -> bool {
    ||| full == "google.protobuf.Timestamp"@
    ||| full == "google.protobuf.Duration"@
    ||| full == "google.protobuf.DoubleValue"@
    ||| full == "google.protobuf.FloatValue"@
    ||| full == "google.protobuf.Int64Value"@
    ||| full == "google.protobuf.UInt64Value"@
    ||| full == "google.protobuf.Int32Value"@
    ||| full == "google.protobuf.UInt32Value"@
    ||| full == "google.protobuf.BoolValue"@
    ||| full == "google.protobuf.StringValue"@
    ||| full == "google.protobuf.BytesValue"@
    ||| full == "pxf.BigInt"@
    ||| full == "pxf.Decimal"@
    ||| full == "pxf.BigFloat"@
}

/// Whether `(pxf.default)` may be placed on a field of message type `full`.
pub fn is_defaultable_message(full: &str) -> (r: bool)
    ensures
        r == defaultable_message(full@),
{
    let n = owned(full);
    str_is(&n, "google.protobuf.Timestamp") || str_is(&n, "google.protobuf.Duration") || str_is(
        &n,
        "google.protobuf.DoubleValue",
    ) || str_is(&n, "google.protobuf.FloatValue") || str_is(&n, "google.protobuf.Int64Value")
        || str_is(&n, "google.protobuf.UInt64Value") || str_is(&n, "google.protobuf.Int32Value")
        || str_is(&n, "google.protobuf.UInt32Value") || str_is(&n, "google.protobuf.BoolValue")
        || str_is(&n, "google.protobuf.StringValue") || str_is(&n, "google.protobuf.BytesValue")
        || str_is(&n, "pxf.BigInt") || str_is(&n, "pxf.Decimal") || str_is(&n, "pxf.BigFloat")
}

/// Which bind-time check an element failed.
#[derive(Debug, Clone, Copy, PartialEq, Eq, Hash, Structural)]
pub enum ViolationKind {
    /// A message field whose name is reserved.
    Field,
    /// A oneof declaration whose name is reserved.
    Oneof,
    /// An enum value whose name is reserved.
    EnumValue,
    /// A misplaced `(pxf.key)` annotation.
    KeyOption,
    /// A misplaced `(pxf.default)` annotation, or a second default in one
    /// oneof.
    DefaultOption,
    /// A `(pxf.required)` annotation on a member of a oneof.
    RequiredOption,
}

pub open spec fn kind_label(k: ViolationKind) -> Seq<char> {
    match k {
        ViolationKind::Field => "message field"@,
        ViolationKind::Oneof => "oneof"@,
        ViolationKind::EnumValue => "enum value"@,
        ViolationKind::KeyOption => "keyed field option"@,
        ViolationKind::DefaultOption => "default field option"@,
        ViolationKind::RequiredOption => "required field option"@,
    }
}

impl ViolationKind {
    /// How the kind reads in a message.
    pub fn label(self) -> (s: &'static str)
        ensures
            s@ == kind_label(self),
    {
        match self {
            ViolationKind::Field => "message field",
            ViolationKind::Oneof => "oneof",
            ViolationKind::EnumValue => "enum value",
            ViolationKind::KeyOption => "keyed field option",
            ViolationKind::DefaultOption => "default field option",
            ViolationKind::RequiredOption => "required field option",
        }
    }
}

/// One schema element that fails a PXF bind-time check.
#[derive(Debug, Clone, PartialEq, Eq)]
pub struct Violation {
    /// `.proto` file path the offending element is declared in.
    pub file: String,
    /// Fully-qualified protobuf name, e.g. `"trades.v1.Side.null"`.
    pub element: String,
    /// The reserved identifier for the reserved-name kinds; the annotation
    /// value for the key and default kinds; the containing oneof's name for
    /// the required kind.
    pub name: String,
    pub kind: ViolationKind,
    /// An explanation for the three annotation kinds; empty otherwise.
    pub detail: String,
}

/// How a violation reads.
pub open spec fn violation_text(v: Violation) -> Seq<char> {
    match v.kind {
        ViolationKind::KeyOption => v.file@ + ": field \""@ + v.element@ + "\": invalid (pxf.key) = \""@
            + v.name@ + "\": "@ + v.detail@ + " (draft -01 §3.13)"@,
        ViolationKind::DefaultOption => v.file@ + ": field \""@ + v.element@
            + "\": invalid (pxf.default) = \""@ + v.name@ + "\": "@ + v.detail@
            + " (draft -01 §annotation-extensions)"@,
        ViolationKind::RequiredOption => v.file@ + ": field \""@ + v.element@
            + "\": invalid (pxf.required): "@ + v.detail@ + " (draft -01 §annotation-extensions)"@,
        _ => v.file@ + ": "@ + kind_label(v.kind) + " \""@ + v.element@
            + "\" uses PXF-reserved name \""@ + v.name@ + "\" (draft §3.13)"@,
    }
}

impl Violation {
    /// The violation as text.
    pub fn render(&self) -> (s: String)
        ensures
            s@ == violation_text(*self),
    {
        let mut s = owned(self.file.as_str());
        match self.kind {
            ViolationKind::KeyOption => {
                push_str(&mut s, ": field \"");
                push_str(&mut s, self.element.as_str());
                push_str(&mut s, "\": invalid (pxf.key) = \"");
                push_str(&mut s, self.name.as_str());
                push_str(&mut s, "\": ");
                push_str(&mut s, self.detail.as_str());
                push_str(&mut s, " (draft -01 §3.13)");
            },
            ViolationKind::DefaultOption => {
                push_str(&mut s, ": field \"");
                push_str(&mut s, self.element.as_str());
                push_str(&mut s, "\": invalid (pxf.default) = \"");
                push_str(&mut s, self.name.as_str());
                push_str(&mut s, "\": ");
                push_str(&mut s, self.detail.as_str());
                push_str(&mut s, " (draft -01 §annotation-extensions)");
            },
            ViolationKind::RequiredOption => {
                push_str(&mut s, ": field \"");
                push_str(&mut s, self.element.as_str());
                push_str(&mut s, "\": invalid (pxf.required): ");
                push_str(&mut s, self.detail.as_str());
                push_str(&mut s, " (draft -01 §annotation-extensions)");
            },
            _ => {
                push_str(&mut s, ": ");
                push_str(&mut s, self.kind.label());
                push_str(&mut s, " \"");
                push_str(&mut s, self.element.as_str());
                push_str(&mut s, "\" uses PXF-reserved name \"");
                push_str(&mut s, self.name.as_str());
                push_str(&mut s, "\" (draft §3.13)");
            },
        }
        s
    }
}

/// The violations joined into one decode error message; `None` when there
/// are none.
pub open spec fn violations_text(vs: Seq<Violation>) -> Seq<char>
    decreases vs.len(),
{
    if vs.len() == 0 {
        "PXF schema violations:"@
    } else {
        violations_text(vs.drop_last()) + "\n  "@ + violation_text(vs.last())
    }
}

/// The violations joined into one error message, one per indented line
/// after a heading; `None` when `vs` is empty.
pub fn as_validation_error_message(vs: &[Violation]) -> (r: Option<String>)
    ensures
        vs@.len() == 0 <==> r is None,
        r matches Some(m) ==> m@ == violations_text(vs@),
{
    if vs.len() == 0 {
        return None;
    }
    let mut msg = owned("PXF schema violations:");
    let mut k: usize = 0;
    while k < vs.len()
        invariant
            k <= vs@.len(),
            msg@ == violations_text(vs@.subrange(0, k as int)),
        decreases vs@.len() - k,
    {
        push_str(&mut msg, "\n  ");
        push_str(&mut msg, vs[k].render().as_str());
        assert(vs@.subrange(0, k + 1).drop_last() == vs@.subrange(0, k as int));
        k = k + 1;
    }
    assert(vs@.subrange(0, vs@.len() as int) == vs@);
    Some(msg)
}


// ---------------------------------------------------------------- the schema

/// What a field holds, as far as the bind-time checks look.
#[derive(Debug, Clone)]
pub enum FieldKind {
    /// `string`.
    String,
    /// A message type (a group's too), with the fields a `(pxf.key)` may
    /// name.
    Message(MessageRef),
    /// Any other scalar type, or an enum.
    Other,
}

/// A message type as seen from a field of that type.
#[derive(Debug, Clone)]
pub struct MessageRef {
    pub full_name: String,
    pub fields: Vec<KeyCandidate>,
}

/// A field of a message type, as a `(pxf.key)` check sees it.
#[derive(Debug, Clone)]
pub struct KeyCandidate {
    pub name: String,
    pub full_name: String,
    pub is_list: bool,
    pub is_map: bool,
    pub is_string: bool,
}

/// A message field with its PXF annotations.
#[derive(Debug, Clone)]
pub struct FieldSchema {
    pub name: String,
    pub full_name: String,
    pub kind: FieldKind,
    pub is_list: bool,
    pub is_map: bool,
    pub is_group: bool,
    /// The position, among its message's oneofs, of the oneof it belongs
    /// to (a synthetic one included).
    pub oneof: Option<usize>,
    /// The `(pxf.key)` annotation.
    pub key: Option<String>,
    /// The `(pxf.default)` annotation.
    pub default: Option<String>,
    /// Whether it carries `(pxf.required)`.
    pub required: bool,
}

/// A oneof declaration; a synthetic one stands for a proto3 `optional`.
#[derive(Debug, Clone)]
pub struct OneofSchema {
    pub name: String,
    pub full_name: String,
    pub synthetic: bool,
}

/// A message type with its fields and oneofs. The messages nested in it
/// are listed in the file beside it.
#[derive(Debug, Clone)]
pub struct MessageSchema {
    pub full_name: String,
    pub fields: Vec<FieldSchema>,
    pub oneofs: Vec<OneofSchema>,
}

/// An enum value; `full_name` is scoped as protobuf scopes enum values,
/// beside the enum.
#[derive(Debug, Clone)]
pub struct EnumValueSchema {
    pub name: String,
    pub full_name: String,
}

/// An enum type.
#[derive(Debug, Clone)]
pub struct EnumSchema {
    pub full_name: String,
    pub values: Vec<EnumValueSchema>,
}

/// A `.proto` file: every message and enum it declares, nested ones
/// included, and the files it imports, as positions in the file list the
/// checks are given.
#[derive(Debug, Clone)]
pub struct FileSchema {
    pub path: String,
    pub messages: Vec<MessageSchema>,
    pub enums: Vec<EnumSchema>,
    pub dependencies: Vec<usize>,
}

// ---------------------------------------------------------------- what the checks find

/// A violation as values.
pub struct ViolationView {
    pub file: Seq<char>,
    pub element: Seq<char>,
    pub name: Seq<char>,
    pub kind: ViolationKind,
    pub detail: Seq<char>,
}

pub open spec fn vview(v: Violation) -> ViolationView {
    ViolationView { file: v.file@, element: v.element@, name: v.name@, kind: v.kind, detail: v.detail@ }
}

pub open spec fn views(vs: Seq<Violation>) -> Seq<ViolationView> {
    vs.map_values(|v: Violation| vview(v))
}

pub open spec fn mk(
    file: Seq<char>,
    element: Seq<char>,
    name: Seq<char>,
    kind: ViolationKind,
    detail: Seq<char>,
) -> ViolationView {
    ViolationView { file, element, name, kind, detail }
}

/// The first of `c[k..]` named `name`.
pub open spec fn find_candidate(c: Seq<KeyCandidate>, name: Seq<char>, k: int) -> Option<KeyCandidate>
    decreases c.len() - k,
{
    if k < 0 || k >= c.len() {
        None
    } else if c[k].name@ == name {
        Some(c[k])
    } else {
        find_candidate(c, name, k + 1)
    }
}

/// What a `(pxf.key) = key` on `f` is refused for: it belongs on a
/// repeated message field, and must name a singular string field of the
/// element message.
pub open spec fn key_checks(path: Seq<char>, f: FieldSchema, key: Seq<char>) -> Seq<ViolationView> {
    let bad = |d: Seq<char>| seq![mk(path, f.full_name@, key, ViolationKind::KeyOption, d)];
    match f.kind {
        FieldKind::Message(m) => if f.is_list && !f.is_map {
            match find_candidate(m.fields@, key, 0) {
                None => bad(
                    "element message "@ + m.full_name@ + " has no field \""@ + key + "\""@,
                ),
                Some(kf) => if kf.is_list || kf.is_map || !kf.is_string {
                    bad("key field "@ + kf.full_name@ + " must be a singular string field"@)
                } else {
                    seq![]
                },
            }
        } else {
            bad("(pxf.key) is valid only on repeated message-typed fields"@)
        },
        _ => bad("(pxf.key) is valid only on repeated message-typed fields"@),
    }
}

/// What a `(pxf.default) = def` on `f` is refused for: a map, a list, a
/// group, or a message type no literal denotes.
pub open spec fn default_checks(path: Seq<char>, f: FieldSchema, def: Seq<char>) -> Seq<
    ViolationView,
> {
    let bad = |d: Seq<char>| seq![mk(path, f.full_name@, def, ViolationKind::DefaultOption, d)];
    if f.is_map {
        bad("(pxf.default) is not valid on map fields: one literal cannot denote a map"@)
    } else if f.is_list {
        bad("(pxf.default) is not valid on repeated fields: one literal cannot denote a list"@)
    } else if f.is_group {
        bad("(pxf.default) is not valid on group fields"@)
    } else {
        match f.kind {
            FieldKind::Message(m) => if !defaultable_message(m.full_name@) {
                bad(
                    "(pxf.default) is not valid on message type "@ + m.full_name@
                        + ": no PXF literal denotes it"@,
                )
            } else {
                seq![]
            },
            _ => seq![],
        }
    }
}

/// The oneof `f` is a member of, unless there is none or it is synthetic.
pub open spec fn real_oneof(m: MessageSchema, f: FieldSchema) -> Option<int> {
    match f.oneof {
        Some(o) => if o < m.oneofs@.len() && !m.oneofs@[o as int].synthetic {
            Some(o as int)
        } else {
            None
        },
        None => None,
    }
}

pub open spec fn required_detail(oneof: Seq<char>) -> Seq<char> {
    "(pxf.required) is not valid on a member of oneof \""@ + oneof
        + "\": read per field it demands that one arm always be chosen, which makes every other arm undecodable"@
}

pub open spec fn reserved_part(path: Seq<char>, f: FieldSchema) -> Seq<ViolationView> {
    if is_reserved_name(f.name@) {
        seq![mk(path, f.full_name@, f.name@, ViolationKind::Field, seq![])]
    } else {
        seq![]
    }
}

pub open spec fn key_part(path: Seq<char>, f: FieldSchema) -> Seq<ViolationView> {
    match f.key {
        Some(k) => key_checks(path, f, k@),
        None => seq![],
    }
}

pub open spec fn default_part(path: Seq<char>, f: FieldSchema) -> Seq<ViolationView> {
    match f.default {
        Some(d) => default_checks(path, f, d@),
        None => seq![],
    }
}

pub open spec fn required_part(path: Seq<char>, m: MessageSchema, f: FieldSchema) -> Seq<
    ViolationView,
> {
    match real_oneof(m, f) {
        Some(o) => if f.required {
            seq![
                mk(
                    path,
                    f.full_name@,
                    m.oneofs@[o].name@,
                    ViolationKind::RequiredOption,
                    required_detail(m.oneofs@[o].name@),
                ),
            ]
        } else {
            seq![]
        },
        None => seq![],
    }
}

/// What one field of `m` is refused for, in this order: a reserved name,
/// its `(pxf.key)`, its `(pxf.default)`, a `(pxf.required)` in a oneof.
pub open spec fn field_checks(path: Seq<char>, m: MessageSchema, f: FieldSchema) -> Seq<
    ViolationView,
> {
    reserved_part(path, f) + key_part(path, f) + default_part(path, f) + required_part(path, m, f)
}

/// The checks of the first `n` fields of `m`.
pub open spec fn fields_checks(path: Seq<char>, m: MessageSchema, n: int) -> Seq<ViolationView>
    decreases n,
{
    if n <= 0 {
        seq![]
    } else {
        fields_checks(path, m, n - 1) + field_checks(path, m, m.fields@[n - 1])
    }
}

/// The oneof members among the first `n` fields of `m` that carry a
/// default: (oneof, field, default).
pub open spec fn annotated(m: MessageSchema, n: int) -> Seq<(int, int, Seq<char>)>
    decreases n,
{
    if n <= 0 {
        seq![]
    } else {
        let prev = annotated(m, n - 1);
        let f = m.fields@[n - 1];
        match (real_oneof(m, f), f.default) {
            (Some(o), Some(d)) => prev.push((o, n - 1, d@)),
            _ => prev,
        }
    }
}

/// The entries of `ann[..n]` in oneof `o`.
pub open spec fn members(ann: Seq<(int, int, Seq<char>)>, o: int, n: int) -> Seq<
    (int, int, Seq<char>),
>
    decreases n,
{
    if n <= 0 {
        seq![]
    } else {
        let p = members(ann, o, n - 1);
        if ann[n - 1].0 == o {
            p.push(ann[n - 1])
        } else {
            p
        }
    }
}

/// `names` joined by `", "`.
pub open spec fn join_names(names: Seq<Seq<char>>) -> Seq<char>
    decreases names.len(),
{
    if names.len() == 0 {
        seq![]
    } else if names.len() == 1 {
        names[0]
    } else {
        join_names(names.drop_last()) + ", "@ + names.last()
    }
}

pub open spec fn member_names(m: MessageSchema, mem: Seq<(int, int, Seq<char>)>) -> Seq<Seq<char>> {
    mem.map_values(|a: (int, int, Seq<char>)| m.fields@[a.1].name@)
}

pub open spec fn cap_detail(m: MessageSchema, o: int, mem: Seq<(int, int, Seq<char>)>) -> Seq<char> {
    "at most one member of oneof \""@ + m.oneofs@[o].name@ + "\" may carry a default; "@
        + decimal_chars(mem.len()) + " do ("@ + join_names(member_names(m, mem)) + ")"@
}

pub open spec fn cap_group(path: Seq<char>, m: MessageSchema, mem: Seq<(int, int, Seq<char>)>, detail: Seq<char>) -> Seq<ViolationView> {
    mem.map_values(
        |a: (int, int, Seq<char>)|
            mk(path, m.fields@[a.1].full_name@, a.2, ViolationKind::DefaultOption, detail),
    )
}

/// Whether `ann[i]` is the first entry of its oneof.
pub open spec fn first_of_oneof(ann: Seq<(int, int, Seq<char>)>, i: int) -> bool {
    forall|j: int| 0 <= j < i ==> ann[j].0 != ann[i].0
}

/// A oneof with defaults on two or more members: every such member is
/// reported, with the group placed at its first member.
pub open spec fn cap_checks(path: Seq<char>, m: MessageSchema, ann: Seq<(int, int, Seq<char>)>, i: int) -> Seq<ViolationView>
    decreases i,
{
    if i <= 0 {
        seq![]
    } else {
        let a = ann[i - 1];
        let mem = members(ann, a.0, ann.len() as int);
        cap_checks(path, m, ann, i - 1) + if mem.len() < 2 || !first_of_oneof(ann, i - 1) {
            seq![]
        } else {
            cap_group(path, m, mem, cap_detail(m, a.0, mem))
        }
    }
}

/// The reserved-name checks of the first `n` oneofs of `m`.
pub open spec fn oneof_checks(path: Seq<char>, m: MessageSchema, n: int) -> Seq<ViolationView>
    decreases n,
{
    if n <= 0 {
        seq![]
    } else {
        let o = m.oneofs@[n - 1];
        oneof_checks(path, m, n - 1) + if !o.synthetic && is_reserved_name(o.name@) {
            seq![mk(path, o.full_name@, o.name@, ViolationKind::Oneof, seq![])]
        } else {
            seq![]
        }
    }
}

/// Everything `m` is refused for.
pub open spec fn message_checks(path: Seq<char>, m: MessageSchema) -> Seq<ViolationView> {
    let ann = annotated(m, m.fields@.len() as int);
    fields_checks(path, m, m.fields@.len() as int) + cap_checks(path, m, ann, ann.len() as int)
        + oneof_checks(path, m, m.oneofs@.len() as int)
}

/// The reserved-name checks of the first `n` values of `e`.
pub open spec fn enum_checks(path: Seq<char>, e: EnumSchema, n: int) -> Seq<ViolationView>
    decreases n,
{
    if n <= 0 {
        seq![]
    } else {
        let v = e.values@[n - 1];
        enum_checks(path, e, n - 1) + if is_reserved_name(v.name@) {
            seq![mk(path, v.full_name@, v.name@, ViolationKind::EnumValue, seq![])]
        } else {
            seq![]
        }
    }
}

pub open spec fn messages_checks(path: Seq<char>, ms: Seq<MessageSchema>, n: int) -> Seq<ViolationView>
    decreases n,
{
    if n <= 0 {
        seq![]
    } else {
        messages_checks(path, ms, n - 1) + message_checks(path, ms[n - 1])
    }
}

pub open spec fn enums_checks(path: Seq<char>, es: Seq<EnumSchema>, n: int) -> Seq<ViolationView>
    decreases n,
{
    if n <= 0 {
        seq![]
    } else {
        enums_checks(path, es, n - 1) + enum_checks(path, es[n - 1], es[n - 1].values@.len() as int)
    }
}

/// Everything declared in `f` itself is refused for, its imports aside.
pub open spec fn file_checks(f: FileSchema) -> Seq<ViolationView> {
    messages_checks(f.path@, f.messages@, f.messages@.len() as int) + enums_checks(
        f.path@,
        f.enums@,
        f.enums@.len() as int,
    )
}


// ---------------------------------------------------------------- the walk

fn emit(
    out: &mut Vec<Violation>,
    file: &str,
    element: &str,
    name: &str,
    kind: ViolationKind,
    detail: String,
)
    ensures
        views(final(out)@) == views(old(out)@).push(mk(file@, element@, name@, kind, detail@)),
{
    let v = Violation { file: owned(file), element: owned(element), name: owned(name), kind, detail };
    let ghost before = out@;
    out.push(v);
    proof {
        assert(views(out@) =~= views(before).push(mk(file@, element@, name@, kind, detail@)));
    }
}

fn cat3(a: &str, b: &str, c: &str) -> (r: String)
    ensures
        r@ == a@ + b@ + c@,
{
    let mut r = owned(a);
    push_str(&mut r, b);
    push_str(&mut r, c);
    r
}

/// The first of `c` named `name`.
fn find_key_field(c: &Vec<KeyCandidate>, name: &str) -> (r: Option<usize>)
    ensures
        match find_candidate(c@, name@, 0) {
            None => r is None,
            Some(kf) => r matches Some(k) && k < c@.len() && c@[k as int] == kf,
        },
{
    let mut k: usize = 0;
    while k < c.len()
        invariant
            k <= c@.len(),
            find_candidate(c@, name@, 0) == find_candidate(c@, name@, k as int),
        decreases c@.len() - k,
    {
        let same = str_is(&c[k].name, name);
        if same {
            return Some(k);
        }
        k = k + 1;
    }
    None
}

/// Checks the placement of `(pxf.key) = key` on `f`.
fn check_key_option(path: &str, f: &FieldSchema, key: &str, out: &mut Vec<Violation>)
    ensures
        views(final(out)@) == views(old(out)@) + key_checks(path@, *f, key@),
{
    let ghost before = views(out@);
    match &f.kind {
        FieldKind::Message(m) => {
            if f.is_list && !f.is_map {
                match find_key_field(&m.fields, key) {
                    None => {
                        let mut d = owned("element message ");
                        push_str(&mut d, m.full_name.as_str());
                        push_str(&mut d, " has no field \"");
                        push_str(&mut d, key);
                        push_str(&mut d, "\"");
                        emit(out, path, f.full_name.as_str(), key, ViolationKind::KeyOption, d);
                    },
                    Some(k) => {
                        let kf = &m.fields[k];
                        if kf.is_list || kf.is_map || !kf.is_string {
                            let d = cat3(
                                "key field ",
                                kf.full_name.as_str(),
                                " must be a singular string field",
                            );
                            emit(out, path, f.full_name.as_str(), key, ViolationKind::KeyOption, d);
                        }
                    },
                }
            } else {
                emit(
                    out,
                    path,
                    f.full_name.as_str(),
                    key,
                    ViolationKind::KeyOption,
                    owned("(pxf.key) is valid only on repeated message-typed fields"),
                );
            }
        },
        _ => {
            emit(
                out,
                path,
                f.full_name.as_str(),
                key,
                ViolationKind::KeyOption,
                owned("(pxf.key) is valid only on repeated message-typed fields"),
            );
        },
    }
    assert(views(out@) =~= before + key_checks(path@, *f, key@));
}

/// Checks the placement of `(pxf.default) = def` on `f`: one literal
/// cannot denote a map, a list, a group, or a message type outside the
/// defaultable set.
fn check_default_option(path: &str, f: &FieldSchema, def: &str, out: &mut Vec<Violation>)
    ensures
        views(final(out)@) == views(old(out)@) + default_checks(path@, *f, def@),
{
    let ghost before = views(out@);
    if f.is_map {
        emit(
            out,
            path,
            f.full_name.as_str(),
            def,
            ViolationKind::DefaultOption,
            owned("(pxf.default) is not valid on map fields: one literal cannot denote a map"),
        );
    } else if f.is_list {
        emit(
            out,
            path,
            f.full_name.as_str(),
            def,
            ViolationKind::DefaultOption,
            owned("(pxf.default) is not valid on repeated fields: one literal cannot denote a list"),
        );
    } else if f.is_group {
        emit(
            out,
            path,
            f.full_name.as_str(),
            def,
            ViolationKind::DefaultOption,
            owned("(pxf.default) is not valid on group fields"),
        );
    } else {
        match &f.kind {
            FieldKind::Message(m) => {
                if !is_defaultable_message(m.full_name.as_str()) {
                    let d = cat3(
                        "(pxf.default) is not valid on message type ",
                        m.full_name.as_str(),
                        ": no PXF literal denotes it",
                    );
                    emit(out, path, f.full_name.as_str(), def, ViolationKind::DefaultOption, d);
                }
            },
            _ => {},
        }
    }
    assert(views(out@) =~= before + default_checks(path@, *f, def@));
}


/// A oneof member that carries `(pxf.default)`: the oneof's and the
/// field's positions in their message, and the default.
struct OneofDefault {
    oneof: usize,
    field: usize,
    def: String,
}

spec fn ann_view(a: Seq<OneofDefault>) -> Seq<(int, int, Seq<char>)> {
    a.map_values(|x: OneofDefault| (x.oneof as int, x.field as int, x.def@))
}

spec fn ann_fits(a: Seq<OneofDefault>, m: MessageSchema) -> bool {
    forall|i: int|
        0 <= i < a.len() ==> (#[trigger] a[i]).oneof < m.oneofs@.len() && a[i].field
            < m.fields@.len()
}

fn real_oneof_of(m: &MessageSchema, f: &FieldSchema) -> (r: Option<usize>)
    ensures
        match real_oneof(*m, *f) {
            Some(o) => r == Some(o as usize) && o < m.oneofs@.len(),
            None => r is None,
        },
{
    match f.oneof {
        Some(o) => {
            if o < m.oneofs.len() && !m.oneofs[o].synthetic {
                Some(o)
            } else {
                None
            }
        },
        None => None,
    }
}

/// The checks of one field of `m`.
#[verifier::rlimit(50)]
fn walk_field(path: &str, m: &MessageSchema, k: usize, out: &mut Vec<Violation>)
    requires
        k < m.fields@.len(),
    ensures
        views(final(out)@) == views(old(out)@) + field_checks(path@, *m, m.fields@[k as int]),
{
    let ghost before = views(out@);
    let f = &m.fields[k];
    if is_reserved(f.name.as_str()) {
        emit(out, path, f.full_name.as_str(), f.name.as_str(), ViolationKind::Field, String::new());
    }
    let ghost a1 = views(out@);
    assert(a1 =~= before + reserved_part(path@, *f));
    match &f.key {
        Some(key) => check_key_option(path, f, key.as_str(), out),
        None => {},
    }
    let ghost a2 = views(out@);
    assert(a2 =~= a1 + key_part(path@, *f));
    match &f.default {
        Some(def) => check_default_option(path, f, def.as_str(), out),
        None => {},
    }
    let ghost a3 = views(out@);
    assert(a3 =~= a2 + default_part(path@, *f));
    match real_oneof_of(m, f) {
        Some(o) => {
            if f.required {
                let oo = &m.oneofs[o];
                let d = cat3(
                    "(pxf.required) is not valid on a member of oneof \"",
                    oo.name.as_str(),
                    "\": read per field it demands that one arm always be chosen, which makes every other arm undecodable",
                );
                emit(
                    out,
                    path,
                    f.full_name.as_str(),
                    oo.name.as_str(),
                    ViolationKind::RequiredOption,
                    d,
                );
            }
        },
        None => {},
    }
    assert(views(out@) =~= a3 + required_part(path@, *m, *f));
    assert(views(out@) =~= before + field_checks(path@, *m, m.fields@[k as int]));
}

proof fn lemma_members_len(ann: Seq<(int, int, Seq<char>)>, o: int, n: int)
    requires
        0 <= n <= ann.len(),
    ensures
        members(ann, o, n).len() <= n,
    decreases n,
{
    if n > 0 {
        lemma_members_len(ann, o, n - 1);
    }
}

/// Reports every member of a oneof that carries `(pxf.default)` when a
/// sibling carries one too; each group is reported at its first member.
fn check_oneof_default_cap(
    path: &str,
    m: &MessageSchema,
    ann: &Vec<OneofDefault>,
    out: &mut Vec<Violation>,
)
    requires
        ann_fits(ann@, *m),
    ensures
        views(final(out)@) == views(old(out)@) + cap_checks(
            path@,
            *m,
            ann_view(ann@),
            ann@.len() as int,
        ),
{
    let ghost av = ann_view(ann@);
    let ghost before = views(out@);
    let mut i: usize = 0;
    while i < ann.len()
        invariant
            i <= ann@.len(),
            av == ann_view(ann@),
            ann_fits(ann@, *m),
            views(out@) == before + cap_checks(path@, *m, av, i as int),
        decreases ann@.len() - i,
    {
        let o = ann[i].oneof;
        let ghost at_i = views(out@);
        // The members of oneof `o`, as positions in `ann`.
        let mut mem: Vec<usize> = Vec::new();
        let mut j: usize = 0;
        while j < ann.len()
            invariant
                j <= ann@.len(),
                i < ann@.len(),
                av == ann_view(ann@),
                o == ann@[i as int].oneof,
                mem@.map_values(|p: usize| av[p as int]) == members(av, o as int, j as int),
                forall|t: int| 0 <= t < mem@.len() ==> #[trigger] mem@[t] < ann@.len(),
            decreases ann@.len() - j,
        {
            if ann[j].oneof == o {
                let ghost old_mem = mem@;
                mem.push(j);
                proof {
                    assert(mem@.map_values(|p: usize| av[p as int]) =~= old_mem.map_values(
                        |p: usize| av[p as int],
                    ).push(av[j as int]));
                }
            }
            j = j + 1;
        }
        let ghost memv = members(av, o as int, ann@.len() as int);
        assert(mem@.map_values(|p: usize| av[p as int]) == memv);
        let mut first = true;
        let mut j: usize = 0;
        while j < i
            invariant
                j <= i < ann@.len(),
                av == ann_view(ann@),
                o == ann@[i as int].oneof,
                first == (forall|t: int| 0 <= t < j ==> av[t].0 != av[i as int].0),
            decreases i - j,
        {
            assert(av[j as int].0 == ann@[j as int].oneof as int);
            if ann[j].oneof == o {
                first = false;
            }
            j = j + 1;
        }
        if mem.len() >= 2 && first {
            let oo = &m.oneofs[o];
            let mut d = cat3(
                "at most one member of oneof \"",
                oo.name.as_str(),
                "\" may carry a default; ",
            );
            push_decimal(&mut d, mem.len() as u64);
            push_str(&mut d, " do (");
            let ghost head = d@;
            let mut names = String::new();
            let mut t: usize = 0;
            while t < mem.len()
                invariant
                    t <= mem@.len(),
                    av == ann_view(ann@),
                    ann_fits(ann@, *m),
                    mem@.map_values(|p: usize| av[p as int]) == memv,
                    forall|u: int| 0 <= u < mem@.len() ==> #[trigger] mem@[u] < ann@.len(),
                    names@ == join_names(member_names(*m, memv.subrange(0, t as int))),
                decreases mem@.len() - t,
            {
                let fname = &m.fields[ann[mem[t]].field].name;
                proof {
                    let sub = memv.subrange(0, t + 1);
                    assert(sub[t as int] == av[mem@[t as int] as int]);
                    assert(member_names(*m, sub).drop_last() =~= member_names(
                        *m,
                        memv.subrange(0, t as int),
                    ));
                    assert(member_names(*m, sub).last() == fname@);
                }
                if t > 0 {
                    push_str(&mut names, ", ");
                }
                push_str(&mut names, fname.as_str());
                t = t + 1;
            }
            push_str(&mut d, names.as_str());
            push_str(&mut d, ")");
            proof {
                assert(memv.subrange(0, mem@.len() as int) =~= memv);
                assert(d@ =~= cap_detail(*m, o as int, memv));
            }
            let mut t: usize = 0;
            while t < mem.len()
                invariant
                    t <= mem@.len(),
                    av == ann_view(ann@),
                    ann_fits(ann@, *m),
                    mem@.map_values(|p: usize| av[p as int]) == memv,
                    forall|u: int| 0 <= u < mem@.len() ==> #[trigger] mem@[u] < ann@.len(),
                    d@ == cap_detail(*m, o as int, memv),
                    views(out@) == at_i + cap_group(
                        path@,
                        *m,
                        memv.subrange(0, t as int),
                        d@,
                    ),
                decreases mem@.len() - t,
            {
                let a = &ann[mem[t]];
                let fd = &m.fields[a.field];
                proof {
                    let sub = memv.subrange(0, t + 1);
                    assert(sub[t as int] == av[mem@[t as int] as int]);
                    assert(cap_group(path@, *m, sub, d@) =~= cap_group(
                        path@,
                        *m,
                        memv.subrange(0, t as int),
                        d@,
                    ).push(mk(path@, fd.full_name@, a.def@, ViolationKind::DefaultOption, d@)));
                }
                emit(
                    out,
                    path,
                    fd.full_name.as_str(),
                    a.def.as_str(),
                    ViolationKind::DefaultOption,
                    d.clone(),
                );
                proof {
                    assert(views(out@) =~= at_i + cap_group(
                        path@,
                        *m,
                        memv.subrange(0, t + 1),
                        d@,
                    ));
                }
                t = t + 1;
            }
            proof {
                assert(memv.subrange(0, mem@.len() as int) =~= memv);
                assert(views(out@) =~= before + cap_checks(path@, *m, av, i + 1));
            }
        } else {
            proof {
                assert(views(out@) =~= before + cap_checks(path@, *m, av, i + 1));
            }
        }
        i = i + 1;
    }
}


/// Everything `m` is refused for: its fields, the oneof default cap, and
/// its oneofs' names (synthetic oneofs aside).
fn walk_message(path: &str, m: &MessageSchema, out: &mut Vec<Violation>)
    ensures
        views(final(out)@) == views(old(out)@) + message_checks(path@, *m),
{
    let ghost before = views(out@);
    let mut ann: Vec<OneofDefault> = Vec::new();
    let mut k: usize = 0;
    while k < m.fields.len()
        invariant
            k <= m.fields@.len(),
            views(out@) == before + fields_checks(path@, *m, k as int),
            ann_view(ann@) == annotated(*m, k as int),
            ann_fits(ann@, *m),
        decreases m.fields@.len() - k,
    {
        let ghost at_k = views(out@);
        walk_field(path, m, k, out);
        assert(views(out@) =~= before + fields_checks(path@, *m, k + 1));
        let f = &m.fields[k];
        match real_oneof_of(m, f) {
            Some(o) => match &f.default {
                Some(d) => {
                    let ghost old_ann = ann@;
                    ann.push(OneofDefault { oneof: o, field: k, def: owned(d.as_str()) });
                    assert(ann_view(ann@) =~= ann_view(old_ann).push((o as int, k as int, d@)));
                },
                None => {},
            },
            None => {},
        }
        k = k + 1;
    }
    let ghost after_fields = views(out@);
    check_oneof_default_cap(path, m, &ann, out);
    let ghost after_cap = views(out@);
    let mut k: usize = 0;
    while k < m.oneofs.len()
        invariant
            k <= m.oneofs@.len(),
            views(out@) == after_cap + oneof_checks(path@, *m, k as int),
        decreases m.oneofs@.len() - k,
    {
        let o = &m.oneofs[k];
        if !o.synthetic && is_reserved(o.name.as_str()) {
            emit(out, path, o.full_name.as_str(), o.name.as_str(), ViolationKind::Oneof, String::new());
        }
        assert(views(out@) =~= after_cap + oneof_checks(path@, *m, k + 1));
        k = k + 1;
    }
    assert(views(out@) =~= before + message_checks(path@, *m));
}

/// The values of `e` named like a PXF keyword.
fn walk_enum(path: &str, e: &EnumSchema, out: &mut Vec<Violation>)
    ensures
        views(final(out)@) == views(old(out)@) + enum_checks(path@, *e, e.values@.len() as int),
{
    let ghost before = views(out@);
    let mut k: usize = 0;
    while k < e.values.len()
        invariant
            k <= e.values@.len(),
            views(out@) == before + enum_checks(path@, *e, k as int),
        decreases e.values@.len() - k,
    {
        let v = &e.values[k];
        if is_reserved(v.name.as_str()) {
            emit(out, path, v.full_name.as_str(), v.name.as_str(), ViolationKind::EnumValue, String::new());
        }
        assert(views(out@) =~= before + enum_checks(path@, *e, k + 1));
        k = k + 1;
    }
}

/// The violations declared in `f` itself, its imports aside.
fn file_violations(f: &FileSchema, out: &mut Vec<Violation>)
    ensures
        views(final(out)@) == views(old(out)@) + file_checks(*f),
{
    let ghost before = views(out@);
    let path = f.path.as_str();
    let mut k: usize = 0;
    while k < f.messages.len()
        invariant
            k <= f.messages@.len(),
            path@ == f.path@,
            views(out@) == before + messages_checks(f.path@, f.messages@, k as int),
        decreases f.messages@.len() - k,
    {
        walk_message(path, &f.messages[k], out);
        assert(views(out@) =~= before + messages_checks(f.path@, f.messages@, k + 1));
        k = k + 1;
    }
    let ghost mid = views(out@);
    let mut k: usize = 0;
    while k < f.enums.len()
        invariant
            k <= f.enums@.len(),
            path@ == f.path@,
            views(out@) == mid + enums_checks(f.path@, f.enums@, k as int),
        decreases f.enums@.len() - k,
    {
        walk_enum(path, &f.enums[k], out);
        assert(views(out@) =~= mid + enums_checks(f.path@, f.enums@, k + 1));
        k = k + 1;
    }
    assert(views(out@) =~= before + file_checks(*f));
}


// ---------------------------------------------------------------- the import closure and the order

pub open spec fn paths(files: Seq<FileSchema>) -> Seq<Seq<char>> {
    files.map_values(|f: FileSchema| f.path@)
}

/// `stack` with `deps` pushed last to first, so that the first import is
/// walked first.
pub open spec fn stacked(stack: Seq<int>, deps: Seq<usize>) -> Seq<int>
    decreases deps.len(),
{
    if deps.len() == 0 {
        stack
    } else {
        stacked(stack.push(deps.last() as int), deps.drop_last())
    }
}

/// The files walked from `stack` (its last entry first), depth first, each
/// path once: a file is followed by its imports, in order. Positions that
/// name no file are passed over.
pub open spec fn walk_order(files: Seq<FileSchema>, stack: Seq<int>, seen: Seq<Seq<char>>) -> Seq<
    int,
>
    decreases files.len() - seen.len(), stack.len(),
{
    if stack.len() == 0 {
        seq![]
    } else {
        let i = stack.last();
        let rest = stack.drop_last();
        if i < 0 || i >= files.len() || seen.contains(files[i].path@) {
            walk_order(files, rest, seen)
        } else if seen.len() >= files.len() {
            seq![]
        } else {
            seq![i] + walk_order(
                files,
                stacked(rest, files[i].dependencies@),
                seen.push(files[i].path@),
            )
        }
    }
}

/// The checks of the files in `order`, one file after the other.
pub open spec fn checks_of(files: Seq<FileSchema>, order: Seq<int>) -> Seq<ViolationView>
    decreases order.len(),
{
    if order.len() == 0 {
        seq![]
    } else {
        checks_of(files, order.drop_last()) + file_checks(files[order.last()])
    }
}

/// The checks of `files[root]` and of every file it imports, directly or
/// not.
pub open spec fn closure_checks(files: Seq<FileSchema>, root: int) -> Seq<ViolationView> {
    checks_of(files, walk_order(files, seq![root], seq![]))
}

/// Whether `a` comes before `b` or equals it, character by character.
pub open spec fn text_le(a: Seq<char>, b: Seq<char>) -> bool
    decreases a.len(),
{
    if a.len() == 0 {
        true
    } else if b.len() == 0 {
        false
    } else if a[0] != b[0] {
        (a[0] as int) < (b[0] as int)
    } else {
        text_le(a.drop_first(), b.drop_first())
    }
}

/// The order of the result: by file, then by element.
pub open spec fn violation_le(a: ViolationView, b: ViolationView) -> bool {
    (a.file != b.file && text_le(a.file, b.file)) || (a.file == b.file && text_le(
        a.element,
        b.element,
    ))
}

/// `v` placed after the last entry of `s` that does not come after it.
pub open spec fn insert_sorted(s: Seq<ViolationView>, v: ViolationView) -> Seq<ViolationView>
    decreases s.len(),
{
    if s.len() == 0 || violation_le(s.last(), v) {
        s.push(v)
    } else {
        insert_sorted(s.drop_last(), v).push(s.last())
    }
}

/// `s` sorted stably by file and element.
pub open spec fn sorted_violations(s: Seq<ViolationView>) -> Seq<ViolationView>
    decreases s.len(),
{
    if s.len() == 0 {
        seq![]
    } else {
        insert_sorted(sorted_violations(s.drop_last()), s.last())
    }
}

/// What [`validate_file`] answers for `files[root]`.
pub open spec fn validation(files: Seq<FileSchema>, root: int) -> Seq<ViolationView> {
    sorted_violations(closure_checks(files, root))
}

fn text_le_of(a: &str, b: &str) -> (r: bool)
    ensures
        r == text_le(a@, b@),
{
    let t = crate::text::chars_of(a);
    let u = crate::text::chars_of(b);
    let mut k: usize = 0;
    assert(a@.subrange(0, a@.len() as int) =~= a@);
    assert(b@.subrange(0, b@.len() as int) =~= b@);
    loop
        invariant
            t@ == a@,
            u@ == b@,
            k <= t@.len(),
            k <= u@.len(),
            text_le(a@, b@) == text_le(a@.subrange(k as int, a@.len() as int), b@.subrange(k as int, b@.len() as int)),
        decreases t@.len() - k,
    {
        let ghost x = a@.subrange(k as int, a@.len() as int);
        let ghost y = b@.subrange(k as int, b@.len() as int);
        if k == t.len() {
            return true;
        }
        if k == u.len() {
            return false;
        }
        assert(x[0] == t@[k as int] && y[0] == u@[k as int]);
        if t[k] != u[k] {
            return t[k] < u[k];
        }
        assert(x.drop_first() =~= a@.subrange(k + 1, a@.len() as int));
        assert(y.drop_first() =~= b@.subrange(k + 1, b@.len() as int));
        k = k + 1;
    }
}

fn violation_le_of(a: &Violation, b: &Violation) -> (r: bool)
    ensures
        r == violation_le(vview(*a), vview(*b)),
{
    let same_file = str_is(&a.file, b.file.as_str());
    if !same_file {
        text_le_of(a.file.as_str(), b.file.as_str())
    } else {
        text_le_of(a.element.as_str(), b.element.as_str())
    }
}

/// Inserts `v` after the last entry that does not come after it.
fn insert_violation(out: &mut Vec<Violation>, v: Violation)
    ensures
        views(final(out)@) == insert_sorted(views(old(out)@), vview(v)),
{
    let ghost s = views(out@);
    let ghost vv = vview(v);
    let mut p = out.len();
    assert(s.subrange(0, p as int) =~= s);
    assert(s.subrange(p as int, s.len() as int) =~= Seq::<ViolationView>::empty());
    assert(insert_sorted(s, vv) =~= insert_sorted(s.subrange(0, p as int), vv) + s.subrange(
        p as int,
        s.len() as int,
    ));
    while p > 0 && !violation_le_of(&out[p - 1], &v)
        invariant
            p <= out@.len(),
            s == views(out@),
            vv == vview(v),
            insert_sorted(s, vv) == insert_sorted(s.subrange(0, p as int), vv) + s.subrange(
                p as int,
                s.len() as int,
            ),
        decreases p,
    {
        proof {
            let sp = s.subrange(0, p as int);
            assert(sp.last() == s[p - 1]);
            assert(sp.drop_last() =~= s.subrange(0, p - 1));
            assert(insert_sorted(s.subrange(0, p as int), vv) == insert_sorted(
                s.subrange(0, p - 1),
                vv,
            ).push(s[p - 1]));
            assert(insert_sorted(s, vv) =~= insert_sorted(s.subrange(0, p - 1), vv) + s.subrange(
                p - 1,
                s.len() as int,
            ));
        }
        p = p - 1;
    }
    proof {
        assert(insert_sorted(s.subrange(0, p as int), vv) == s.subrange(0, p as int).push(vv));
    }
    out.insert(p, v);
    proof {
        assert(views(out@) =~= insert_sorted(s, vv));
    }
}

/// `vs` sorted stably by file, then element.
fn sort_violations(vs: Vec<Violation>) -> (r: Vec<Violation>)
    ensures
        views(r@) == sorted_violations(views(vs@)),
{
    let ghost all = views(vs@);
    let mut rest = vs;
    let mut out: Vec<Violation> = Vec::new();
    let ghost mut done: int = 0;
    while rest.len() > 0
        invariant
            0 <= done <= all.len(),
            views(rest@) == all.subrange(done, all.len() as int),
            views(out@) == sorted_violations(all.subrange(0, done)),
        decreases rest@.len(),
    {
        let ghost r0 = rest@;
        let x = rest.remove(0);
        proof {
            assert(views(r0)[0] == vview(x));
            assert(views(r0) == all.subrange(done, all.len() as int));
            assert(r0.len() > 0);
            assert(views(r0).len() == r0.len());
            assert(done < all.len());
            assert(all.subrange(done, all.len() as int)[0] == all[done]);
            assert(all[done] == views(r0)[0]);
            assert(rest@ =~= r0.subrange(1, r0.len() as int));
            assert(views(rest@) =~= views(r0).subrange(1, r0.len() as int));
            assert(views(rest@) =~= all.subrange(done + 1, all.len() as int));
            let pre = all.subrange(0, done + 1);
            assert(pre.drop_last() =~= all.subrange(0, done));
            assert(pre.last() == vview(x));
        }
        insert_violation(&mut out, x);
        proof {
            done = done + 1;
        }
    }
    proof {
        assert(all.subrange(0, done) =~= all);
    }
    out
}


spec fn stack_view(s: Seq<usize>) -> Seq<int> {
    s.map_values(|x: usize| x as int)
}

spec fn seen_view(s: Seq<String>) -> Seq<Seq<char>> {
    s.map_values(|x: String| x@)
}

/// A path not yet walked leaves room: fewer paths were walked than there
/// are files.
proof fn lemma_room(fs: Seq<FileSchema>, seen: Seq<Seq<char>>, i: int)
    requires
        0 <= i < fs.len(),
        seen.no_duplicates(),
        forall|k: int| 0 <= k < seen.len() ==> paths(fs).contains(#[trigger] seen[k]),
        !seen.contains(fs[i].path@),
    ensures
        seen.len() < fs.len(),
{
    broadcast use vstd::seq_lib::seq_to_set_is_finite;

    let p = fs[i].path@;
    let s2 = seen.push(p);
    assert(s2.no_duplicates()) by {
        assert forall|a: int, b: int| 0 <= a < s2.len() && 0 <= b < s2.len() && a != b implies s2[a]
            != s2[b] by {
            if a < seen.len() && b < seen.len() {
                assert(seen[a] != seen[b]);
            } else if a < seen.len() {
                assert(seen.contains(seen[a]));
            } else if b < seen.len() {
                assert(seen.contains(seen[b]));
            }
        }
    }
    s2.unique_seq_to_set();
    let ps = paths(fs);
    ps.lemma_cardinality_of_set();
    assert(paths(fs)[i] == p);
    assert(s2.to_set().subset_of(ps.to_set())) by {
        assert forall|x: Seq<char>| s2.to_set().contains(x) implies ps.to_set().contains(x) by {
            assert(s2.contains(x));
            let k = choose|k: int| 0 <= k < s2.len() && s2[k] == x;
            if k < seen.len() {
                assert(seen[k] == x);
                assert(paths(fs).contains(seen[k]));
            }
        }
    }
    vstd::set_lib::lemma_len_subset(s2.to_set(), ps.to_set());
}

/// Walks `files[root]` and its imports, depth first and each path once,
/// and returns every bind-time violation in that closure, sorted stably
/// by file path and then by element name. Empty means conformant.
pub fn validate_file(files: &[FileSchema], root: usize) -> (r: Vec<Violation>)
    ensures
        views(r@) == validation(files@, root as int),
{
    let ghost fs = files@;
    let ghost start = walk_order(fs, seq![root as int], seq![]);
    let mut stack: Vec<usize> = Vec::new();
    stack.push(root);
    let mut seen: Vec<String> = Vec::new();
    let mut out: Vec<Violation> = Vec::new();
    let ghost mut order: Seq<int> = seq![];
    assert(stack_view(stack@) =~= seq![root as int]);
    assert(seen_view(seen@) =~= Seq::<Seq<char>>::empty());
    while stack.len() > 0
        invariant
            fs == files@,
            order + walk_order(fs, stack_view(stack@), seen_view(seen@)) == start,
            views(out@) == checks_of(fs, order),
            seen_view(seen@).no_duplicates(),
            forall|k: int|
                0 <= k < seen@.len() ==> paths(fs).contains(#[trigger] seen_view(seen@)[k]),
        decreases fs.len() - seen@.len(), stack@.len(),
    {
        let ghost sv = seen_view(seen@);
        let ghost st0 = stack_view(stack@);
        let ghost s0 = stack@;
        let i = stack.pop().unwrap();
        proof {
            assert(st0.last() == i as int);
            assert(st0.drop_last() =~= stack_view(stack@));
        }
        if i >= files.len() {
            continue;
        }
        let path = &files[i].path;
        let mut found = false;
        let mut k: usize = 0;
        while k < seen.len()
            invariant
                k <= seen@.len(),
                found == (exists|t: int| 0 <= t < k && seen_view(seen@)[t] == path@),
            decreases seen@.len() - k,
        {
            assert(seen_view(seen@)[k as int] == seen@[k as int]@);
            if str_is(&seen[k], path.as_str()) {
                found = true;
            }
            k = k + 1;
        }
        if found {
            assert(sv.contains(fs[i as int].path@));
            continue;
        }
        assert(!sv.contains(fs[i as int].path@));
        proof {
            lemma_room(fs, sv, i as int);
        }
        let ghost before_seen = seen@;
        seen.push(owned(path.as_str()));
        proof {
            assert(seen_view(seen@) =~= sv.push(fs[i as int].path@));
            assert(paths(fs)[i as int] == fs[i as int].path@);
        }
        file_violations(&files[i], &mut out);
        proof {
            let o2 = order.push(i as int);
            assert(o2.drop_last() =~= order);
            order = o2;
        }
        let deps = &files[i].dependencies;
        let ghost rest = stack_view(stack@);
        let mut d = deps.len();
        assert(deps@.subrange(0, d as int) =~= deps@);
        while d > 0
            invariant
                d <= deps@.len(),
                stacked(stack_view(stack@), deps@.subrange(0, d as int)) == stacked(rest, deps@),
            decreases d,
        {
            let ghost sub = deps@.subrange(0, d as int);
            let ghost before = stack_view(stack@);
            stack.push(deps[d - 1]);
            proof {
                assert(sub.last() == deps@[d - 1]);
                assert(sub.drop_last() =~= deps@.subrange(0, d - 1));
                assert(stack_view(stack@) =~= before.push(deps@[d - 1] as int));
            }
            d = d - 1;
        }
        assert(deps@.subrange(0, 0) =~= Seq::<usize>::empty());
        proof {
            assert(order =~= order.drop_last().push(i as int));
            assert(seq![i as int] + walk_order(fs, stack_view(stack@), seen_view(seen@)) == walk_order(fs, st0, sv));
            assert(order.drop_last() + walk_order(fs, st0, sv) == start);
            assert(order + walk_order(fs, stack_view(stack@), seen_view(seen@)) =~= order.drop_last() + (seq![i as int] + walk_order(fs, stack_view(stack@), seen_view(seen@))));
        }
    }
    assert(order =~= start);
    sort_violations(out)
}

/// The violations of the file that declares a message, with its imports:
/// [`validate_file`] of that file.
pub fn validate_descriptor(files: &[FileSchema], file: usize) -> (r: Vec<Violation>)
    ensures
        views(r@) == validation(files@, file as int),
{
    validate_file(files, file)
}


// ---------------------------------------------------------------- laws of the order

/// Whether `s` runs by file, then by element.
pub open spec fn violations_sorted(s: Seq<ViolationView>) -> bool {
    forall|i: int, j: int| 0 <= i < j < s.len() ==> violation_le(#[trigger] s[i], #[trigger] s[j])
}

proof fn lemma_text_le_total(a: Seq<char>, b: Seq<char>)
    ensures
        text_le(a, b) || text_le(b, a),
    decreases a.len(),
{
    if a.len() > 0 && b.len() > 0 {
        if a[0] == b[0] {
            lemma_text_le_total(a.drop_first(), b.drop_first());
        } else {
            assert((a[0] as int) != (b[0] as int));
        }
    }
}

proof fn lemma_text_le_trans(a: Seq<char>, b: Seq<char>, c: Seq<char>)
    requires
        text_le(a, b),
        text_le(b, c),
    ensures
        text_le(a, c),
    decreases a.len(),
{
    if a.len() > 0 && b.len() > 0 && c.len() > 0 && a[0] == b[0] && b[0] == c[0] {
        lemma_text_le_trans(a.drop_first(), b.drop_first(), c.drop_first());
    }
}

proof fn lemma_text_le_antisym(a: Seq<char>, b: Seq<char>)
    requires
        text_le(a, b),
        text_le(b, a),
    ensures
        a == b,
    decreases a.len(),
{
    if a.len() > 0 && b.len() > 0 {
        assert(a[0] == b[0]);
        assert(text_le(a.drop_first(), b.drop_first()));
        assert(text_le(b.drop_first(), a.drop_first()));
        lemma_text_le_antisym(a.drop_first(), b.drop_first());
        assert(a.drop_first().len() == b.drop_first().len());
        assert(a.len() == b.len());
        assert forall|i: int| 0 <= i < a.len() implies a[i] == b[i] by {
            if i > 0 {
                assert(a[i] == a.drop_first()[i - 1]);
                assert(b[i] == b.drop_first()[i - 1]);
            }
        }
        assert(a =~= b);
    } else {
        assert(a.len() == 0 && b.len() == 0);
        assert(a =~= b);
    }
}

proof fn lemma_violation_le_total(a: ViolationView, b: ViolationView)
    ensures
        violation_le(a, b) || violation_le(b, a),
{
    lemma_text_le_total(a.file, b.file);
    lemma_text_le_total(a.element, b.element);
}

proof fn lemma_violation_le_trans(a: ViolationView, b: ViolationView, c: ViolationView)
    requires
        violation_le(a, b),
        violation_le(b, c),
    ensures
        violation_le(a, c),
{
    if a.file != b.file || b.file != c.file {
        if text_le(a.file, b.file) && text_le(b.file, c.file) {
            lemma_text_le_trans(a.file, b.file, c.file);
            if a.file == c.file {
                if a.file != b.file {
                    lemma_text_le_antisym(a.file, b.file);
                } else {
                    lemma_text_le_antisym(b.file, c.file);
                }
            }
        }
    } else {
        lemma_text_le_trans(a.element, b.element, c.element);
    }
}

proof fn lemma_insert_sorted(s: Seq<ViolationView>, v: ViolationView)
    requires
        violations_sorted(s),
    ensures
        violations_sorted(insert_sorted(s, v)),
        insert_sorted(s, v).to_multiset() == s.to_multiset().insert(v),
        forall|x: ViolationView| #[trigger] insert_sorted(s, v).contains(x) ==> x == v || s.contains(x),
    decreases s.len(),
{
    broadcast use vstd::seq_lib::group_to_multiset_ensures;

    if s.len() == 0 || violation_le(s.last(), v) {
        let r = s.push(v);
        assert forall|i: int, j: int| 0 <= i < j < r.len() implies violation_le(
            #[trigger] r[i],
            #[trigger] r[j],
        ) by {
            if j == s.len() && i < s.len() - 1 {
                lemma_violation_le_trans(s[i], s.last(), v);
            }
        }
        assert forall|x: ViolationView| #[trigger] r.contains(x) implies x == v || s.contains(x) by {
            let k = choose|k: int| 0 <= k < r.len() && r[k] == x;
            if k < s.len() {
                assert(s[k] == x);
            }
        }
    } else {
        let s1 = s.drop_last();
        let last = s.last();
        assert(violations_sorted(s1)) by {
            assert forall|i: int, j: int| 0 <= i < j < s1.len() implies violation_le(
                #[trigger] s1[i],
                #[trigger] s1[j],
            ) by {
                assert(s1[i] == s[i] && s1[j] == s[j]);
            }
        }
        lemma_insert_sorted(s1, v);
        lemma_violation_le_total(last, v);
        let r1 = insert_sorted(s1, v);
        let r = r1.push(last);
        assert forall|i: int, j: int| 0 <= i < j < r.len() implies violation_le(
            #[trigger] r[i],
            #[trigger] r[j],
        ) by {
            if j == r1.len() {
                assert(r1.contains(r1[i]));
                if r1[i] != v {
                    let k = choose|k: int| 0 <= k < s1.len() && s1[k] == r1[i];
                    assert(s[k] == r1[i]);
                    assert(violation_le(s[k], s[s.len() - 1]));
                }
            } else {
                assert(r[i] == r1[i] && r[j] == r1[j]);
            }
        }
        assert forall|x: ViolationView| #[trigger] r.contains(x) implies x == v || s.contains(x) by {
            let k = choose|k: int| 0 <= k < r.len() && r[k] == x;
            if k < r1.len() {
                assert(r1[k] == x);
                assert(r1.contains(x));
                if x != v {
                    let t = choose|t: int| 0 <= t < s1.len() && s1[t] == x;
                    assert(s[t] == x);
                }
            } else {
                assert(s[s.len() - 1] == x);
            }
        }
        assert(s =~= s1.push(last));
        assert(s.to_multiset() =~= s1.to_multiset().insert(last));
    }
}

proof fn lemma_sorted_violations(s: Seq<ViolationView>)
    ensures
        violations_sorted(sorted_violations(s)),
        sorted_violations(s).to_multiset() == s.to_multiset(),
    decreases s.len(),
{
    broadcast use vstd::seq_lib::group_to_multiset_ensures;

    if s.len() > 0 {
        lemma_sorted_violations(s.drop_last());
        lemma_insert_sorted(sorted_violations(s.drop_last()), s.last());
        assert(s =~= s.drop_last().push(s.last()));
    } else {
        assert(s.to_multiset() =~= vstd::multiset::Multiset::empty());
        assert(sorted_violations(s).to_multiset() =~= vstd::multiset::Multiset::empty());
    }
}

/// The violations of a file's closure come sorted by file path and then by
/// element name, and they are exactly the closure's findings, none lost and
/// none added.
pub proof fn lemma_validation_sorted(files: Seq<FileSchema>, root: int)
    ensures
        violations_sorted(validation(files, root)),
        validation(files, root).to_multiset() == closure_checks(files, root).to_multiset(),
{
    lemma_sorted_violations(closure_checks(files, root));
}

} // verus!
