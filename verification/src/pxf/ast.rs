//! PXF AST types.
//!
//! Timestamps and durations are kept as their raw lexeme on the AST; a
//! consumer parses them when needed.
use vstd::prelude::*;

use crate::pxf::token::Position;

verus! {

#[derive(Debug, Clone, PartialEq, Eq)]
pub struct Comment {
    pub pos: Position,
    /// Raw text including the comment prefix (`#`, `//`, or block delimiters).
    pub text: String,
}

#[derive(Debug, Default, PartialEq, Eq)]
pub struct Document {
    /// Empty when there is no `@type` directive.
    pub type_url: String,
    /// `@<name> *(prefix) [{ ... }]` blocks in source order; excludes the
    /// directives the grammar defines (`@type`, `@dataset`, `@table`, `@proto`).
    pub directives: Vec<Directive>,
    /// `@dataset TYPE ( cols ) row*` directives in source order. A document
    /// with any of them has no `@type` and no top-level field entries.
    pub datasets: Vec<DatasetDirective>,
    /// `@table TYPE ( cols ) row*` directives, the earlier spelling of
    /// `@dataset`, in source order, under the same rules.
    pub tables: Vec<DatasetDirective>,
    /// `@proto <body>` directives in source order.
    pub protos: Vec<ProtoDirective>,
    /// Byte offset where the schema-typed body begins (after all leading
    /// directives); zero when there are no directives.
    pub body_offset: usize,
    pub entries: Vec<Entry>,
    /// Comments before the first entry (or before `@type`).
    pub leading_comments: Vec<Comment>,
}

/// A top-of-document `@<name> *(<prefix-id>) [{ ... }]` entry: side-channel
/// metadata beside the schema-typed body. `body` holds the raw bytes between
/// `{` and `}` (both exclusive); it is empty and `has_body` is `false` when
/// the directive has no block.
#[derive(Debug, Clone, Default, PartialEq, Eq)]
pub struct Directive {
    pub pos: Position,
    pub name: String,
    /// Identifiers between `@<name>` and the optional block, in source order.
    pub prefixes: Vec<String>,
    /// The one prefix when exactly one was given; empty otherwise.
    pub message_type: String,
    pub body: Vec<u8>,
    pub has_body: bool,
    pub leading_comments: Vec<Comment>,
}

/// `@dataset <type> ( col1, col2, ... ) row*` at document root: many
/// instances of one message type. `type` may be empty when an anonymous
/// `@proto` precedes it.
#[derive(Debug, Default, PartialEq, Eq)]
pub struct DatasetDirective {
    pub pos: Position,
    pub message_type: String,
    /// Top-level field names of `type`; at least one.
    pub columns: Vec<String>,
    pub rows: Vec<DatasetRow>,
    pub leading_comments: Vec<Comment>,
}

/// Shape of a [`ProtoDirective`]'s body.
#[derive(Debug, Clone, Copy, PartialEq, Eq, Default, Structural)]
pub enum ProtoShape {
    /// `@proto { <message-body> }`
    #[default]
    Anonymous,
    /// `@proto <dotted-name> { <message-body> }`
    Named,
    /// `@proto """<proto-source>"""`
    Source,
    /// `@proto b"<base64-FileDescriptorSet>"`
    Descriptor,
}

pub open spec fn proto_shape_name(s: ProtoShape) -> Seq<char> {
    match s {
        ProtoShape::Anonymous => "anonymous"@,
        ProtoShape::Named => "named"@,
        ProtoShape::Source => "source"@,
        ProtoShape::Descriptor => "descriptor"@,
    }
}

impl ProtoShape {
    pub fn name(self) -> (s: &'static str)
        ensures
            s@ == proto_shape_name(self),
    {
        match self {
            ProtoShape::Anonymous => "anonymous",
            ProtoShape::Named => "named",
            ProtoShape::Source => "source",
            ProtoShape::Descriptor => "descriptor",
        }
    }
}

/// `@proto <body>` at document root: an embedded protobuf schema. For the
/// anonymous and named shapes `body` is the bytes between the braces; for the
/// source shape the (dedented) contents of the triple-quoted string; for the
/// descriptor shape the decoded bytes of the bytes literal. `message_name` is
/// non-empty only for the named shape.
#[derive(Debug, Clone, Default, PartialEq, Eq)]
pub struct ProtoDirective {
    pub pos: Position,
    pub shape: ProtoShape,
    pub message_name: String,
    pub body: Vec<u8>,
    pub leading_comments: Vec<Comment>,
}

/// One parenthesized cell tuple of a dataset. `None` is an absent field (the
/// empty cell between two commas); `Some(Value::Null(..))` a present null.
#[derive(Debug, Default, PartialEq, Eq)]
pub struct DatasetRow {
    pub pos: Position,
    pub cells: Vec<Option<Value>>,
}

#[derive(Debug, PartialEq, Eq)]
pub enum Entry {
    Assignment(Assignment),
    MapEntry(MapEntry),
    Block(Block),
}

pub open spec fn entry_pos(e: Entry) -> Position {
    match e {
        Entry::Assignment(a) => a.pos,
        Entry::MapEntry(m) => m.pos,
        Entry::Block(b) => b.pos,
    }
}

impl Entry {
    pub fn pos(&self) -> (p: Position)
        ensures
            p == entry_pos(*self),
    {
        match self {
            Entry::Assignment(a) => a.pos,
            Entry::MapEntry(m) => m.pos,
            Entry::Block(b) => b.pos,
        }
    }
}

/// `key = value` — a field assignment in a message context. `key_quoted`
/// records a quoted (string) key.
#[derive(Debug, PartialEq, Eq)]
pub struct Assignment {
    pub pos: Position,
    pub key: String,
    pub key_quoted: bool,
    pub value: Value,
    pub leading_comments: Vec<Comment>,
    /// Inline comment after the value on the same source line, if any.
    pub trailing_comment: String,
}

/// `key: value` — a key-value pair in a map context.
#[derive(Debug, PartialEq, Eq)]
pub struct MapEntry {
    pub pos: Position,
    pub key: String,
    pub value: Value,
    pub leading_comments: Vec<Comment>,
    pub trailing_comment: String,
}

/// `name { entries }` — a nested message. `name_quoted` records a quoted
/// (string) name.
#[derive(Debug, PartialEq, Eq)]
pub struct Block {
    pub pos: Position,
    pub name: String,
    pub name_quoted: bool,
    pub entries: Vec<Entry>,
    pub leading_comments: Vec<Comment>,
}

#[derive(Debug, PartialEq, Eq)]
pub enum Value {
    String(StringVal),
    Int(IntVal),
    Float(FloatVal),
    Bool(BoolVal),
    Bytes(BytesVal),
    Null(NullVal),
    Ident(IdentVal),
    Timestamp(TimestampVal),
    Duration(DurationVal),
    List(ListVal),
    Block(BlockVal),
}

pub open spec fn value_pos(v: Value) -> Position {
    match v {
        Value::String(x) => x.pos,
        Value::Int(x) => x.pos,
        Value::Float(x) => x.pos,
        Value::Bool(x) => x.pos,
        Value::Bytes(x) => x.pos,
        Value::Null(x) => x.pos,
        Value::Ident(x) => x.pos,
        Value::Timestamp(x) => x.pos,
        Value::Duration(x) => x.pos,
        Value::List(x) => x.pos,
        Value::Block(x) => x.pos,
    }
}

impl Value {
    pub fn pos(&self) -> (p: Position)
        ensures
            p == value_pos(*self),
    {
        match self {
            Value::String(v) => v.pos,
            Value::Int(v) => v.pos,
            Value::Float(v) => v.pos,
            Value::Bool(v) => v.pos,
            Value::Bytes(v) => v.pos,
            Value::Null(v) => v.pos,
            Value::Ident(v) => v.pos,
            Value::Timestamp(v) => v.pos,
            Value::Duration(v) => v.pos,
            Value::List(v) => v.pos,
            Value::Block(v) => v.pos,
        }
    }
}

#[derive(Debug, Clone, PartialEq, Eq)]
pub struct StringVal {
    pub pos: Position,
    pub value: String,
}

/// Integer literal, preserved as raw text.
#[derive(Debug, Clone, PartialEq, Eq)]
pub struct IntVal {
    pub pos: Position,
    pub raw: String,
}

/// Floating-point literal, raw text.
#[derive(Debug, Clone, PartialEq, Eq)]
pub struct FloatVal {
    pub pos: Position,
    pub raw: String,
}

#[derive(Debug, Clone, PartialEq, Eq)]
pub struct BoolVal {
    pub pos: Position,
    pub value: bool,
}

/// Decoded base64 bytes.
#[derive(Debug, Clone, PartialEq, Eq)]
pub struct BytesVal {
    pub pos: Position,
    pub value: Vec<u8>,
}

#[derive(Debug, Clone, PartialEq, Eq)]
pub struct NullVal {
    pub pos: Position,
}

/// Unquoted identifier used as a value — typically an enum name.
#[derive(Debug, Clone, PartialEq, Eq)]
pub struct IdentVal {
    pub pos: Position,
    pub name: String,
}

/// RFC 3339 timestamp literal, raw text.
#[derive(Debug, Clone, PartialEq, Eq)]
pub struct TimestampVal {
    pub pos: Position,
    pub raw: String,
}

/// Go-style duration literal, raw text.
#[derive(Debug, Clone, PartialEq, Eq)]
pub struct DurationVal {
    pub pos: Position,
    pub raw: String,
}

/// `[ … ]` — a list of values.
#[derive(Debug, PartialEq, Eq)]
pub struct ListVal {
    pub pos: Position,
    pub elements: Vec<Value>,
}

/// Anonymous `{ … }` block — map entries and inline messages in lists.
#[derive(Debug, PartialEq, Eq)]
pub struct BlockVal {
    pub pos: Position,
    pub entries: Vec<Entry>,
}

} // verus!
