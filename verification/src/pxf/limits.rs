//! The mandatory limits of one decode or parse call, and their defaults.
use vstd::prelude::*;

use crate::text::{decimal_chars, push_decimal, push_str};

verus! {

/// Caps `{` and `[` nesting. The root message is depth 0 and every `{` or
/// `[` is one descent, so a document exactly this deep parses and one level
/// more is rejected.
pub const MAX_NESTING_DEPTH: usize = 100;

/// Caps the total input to one decode or parse call.
pub const MAX_MESSAGE_SIZE: usize = 67108864;

/// Caps the digit count of any single numeric literal before it is converted
/// into a big integer, decimal or big float. A literal of exactly this many
/// digits is within the limit.
pub const MAX_NUMERIC_LITERAL_DIGITS: usize = 4096;

/// Caps the decoded length of one `b"…"` literal.
pub const MAX_BYTES_LITERAL_LENGTH: usize = 67108864;

/// Caps the element count of any repeated or map field.
pub const MAX_REPEATED_COUNT: usize = 67108864;

/// The per-call limits of one decode or parse. The default is the constants
/// above; lower a field to tighten one call.
#[derive(Debug, Clone, Copy, PartialEq, Eq)]
pub struct Limits {
    pub max_message_size: usize,
    pub max_nesting_depth: usize,
    pub max_numeric_literal_digits: usize,
    pub max_bytes_literal_length: usize,
    pub max_repeated_count: usize,
}

/// The message for input past the size limit.
pub open spec fn message_size_error(len: nat, max: nat) -> Seq<char> {
    "input of "@ + decimal_chars(len) + " bytes exceeds MaxMessageSize="@ + decimal_chars(max)
}

impl Default for Limits {
    fn default() -> (l: Limits)
        ensures
            l == (Limits {
                max_message_size: MAX_MESSAGE_SIZE,
                max_nesting_depth: MAX_NESTING_DEPTH,
                max_numeric_literal_digits: MAX_NUMERIC_LITERAL_DIGITS,
                max_bytes_literal_length: MAX_BYTES_LITERAL_LENGTH,
                max_repeated_count: MAX_REPEATED_COUNT,
            }),
    {
        Limits {
            max_message_size: MAX_MESSAGE_SIZE,
            max_nesting_depth: MAX_NESTING_DEPTH,
            max_numeric_literal_digits: MAX_NUMERIC_LITERAL_DIGITS,
            max_bytes_literal_length: MAX_BYTES_LITERAL_LENGTH,
            max_repeated_count: MAX_REPEATED_COUNT,
        }
    }
}

impl Limits {
    /// Refuses input longer than `max_message_size`, with the message every
    /// entry point shares.
    pub fn check_message_size(&self, len: usize) -> (r: Result<(), String>)
        ensures
            len <= self.max_message_size ==> r is Ok,
            len > self.max_message_size ==> (r matches Err(m) && m@ == message_size_error(
                len as nat,
                self.max_message_size as nat,
            )),
    {
        if len > self.max_message_size {
            let mut m = String::new();
            push_str(&mut m, "input of ");
            push_decimal(&mut m, len as u64);
            push_str(&mut m, " bytes exceeds MaxMessageSize=");
            push_decimal(&mut m, self.max_message_size as u64);
            return Err(m);
        }
        Ok(())
    }
}

} // verus!
