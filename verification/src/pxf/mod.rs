pub mod ast;
pub mod base64;
pub mod bignum;
pub mod errors;
pub mod limits;
pub mod token;
pub mod lexer;
pub mod scan;
pub mod parser;
pub mod format;
pub mod table_reader;
pub mod result;
pub mod keyed;
pub mod schema;
pub mod bigfloat;
pub mod wkt;
pub mod map_key;
pub mod decode;
pub mod bind;

pub use ast::{
    Assignment, Block, BlockVal, BoolVal, BytesVal, Comment, DatasetDirective, DatasetRow,
    Directive, Document, DurationVal, Entry, FloatVal, IdentVal, IntVal, ListVal, MapEntry,
    NullVal, ProtoDirective, ProtoShape, StringVal, TimestampVal, Value,
};
pub use errors::PxfError;
pub use lexer::Lexer;
pub use limits::{
    Limits, MAX_BYTES_LITERAL_LENGTH, MAX_MESSAGE_SIZE, MAX_NESTING_DEPTH,
    MAX_NUMERIC_LITERAL_DIGITS, MAX_REPEATED_COUNT,
};
pub use parser::{parse, parse_with_limits};
pub use token::{Position, Token, TokenKind};
pub use format::{format_with_options, FormatOptions};
pub use table_reader::{DatasetReader, TableReader, DEFAULT_HEADER_MAX_BYTES};
pub use result::Presence;
pub use keyed::ident_safe_entry_name;
pub use schema::{
    is_defaultable_message, is_future_reserved_directive, validate_descriptor, validate_file,
    Violation, ViolationKind,
};
pub use bigfloat::{format_big_float, parse_big_float, BigFloatLit, BIG_FLOAT_PREC};
