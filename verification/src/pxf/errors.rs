//! Position-aware errors for PXF parse / decode.
use vstd::prelude::*;

use crate::pxf::token::Position;
use crate::text::{decimal_chars, push_decimal, push_str};

verus! {

/// An error at a source position.
#[derive(Debug, Clone, PartialEq, Eq)]
pub struct PxfError {
    pub pos: Position,
    pub msg: String,
}

/// How a [`PxfError`] reads: `line:column: message`.
pub open spec fn render_error(e: PxfError) -> Seq<char> {
    decimal_chars(e.pos.line as nat) + ":"@ + decimal_chars(e.pos.column as nat) + ": "@ + e.msg@
}

impl PxfError {
    pub fn new(pos: Position, msg: String) -> (e: PxfError)
        ensures
            e.pos == pos,
            e.msg == msg,
    {
        PxfError { pos, msg }
    }

    /// A copy of the error.
    pub fn duplicate(&self) -> (e: PxfError)
        ensures
            e == *self,
    {
        PxfError { pos: self.pos, msg: self.msg.clone() }
    }

    /// The error as text: `line:column: message`.
    pub fn render(&self) -> (s: String)
        ensures
            s@ == render_error(*self),
    {
        let mut s = String::new();
        push_decimal(&mut s, self.pos.line as u64);
        push_str(&mut s, ":");
        push_decimal(&mut s, self.pos.column as u64);
        push_str(&mut s, ": ");
        push_str(&mut s, self.msg.as_str());
        s
    }
}

} // verus!
