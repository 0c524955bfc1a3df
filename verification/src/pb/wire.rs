//! Low-level protobuf wire-format primitives: varint, zigzag, fixed32/64,
//! length-delimited bytes, and tag (field-number + wire-type) encoding.
use vstd::prelude::*;
use vstd::string::StringSliceAdditionalSpecFns;
use vstd::utf8::{decode_utf8, valid_utf8};

use crate::text::{bytes_to_vec, string_from_utf8};

use crate::pb::varint::{
    lemma_shr7_decreases, unzigzag32_spec, varint_decode, lemma_varint_round_trip, varint_scan, varint_acc, VarintScan, unzigzag64_spec, varint_bytes, zigzag32_spec,
    zigzag64_spec,
};


verus! {

/// `MaxNestingDepth` for protobuf submessages: [`crate::pb::codec::read_message`]
/// refuses to enter a submessage once this many are open.
pub const MAX_NESTING_DEPTH: usize = 100;

/// Why a wire-format read failed.
#[derive(Debug, PartialEq, Eq)]
pub enum Error {
    TruncatedVarint,
    VarintTooLong,
    TruncatedFixed32,
    TruncatedFixed64,
    TruncatedLengthDelim,
    /// A tag with field number 0; the offset just past the tag.
    InvalidTag(usize),
    UnknownWireType(u8),
    GroupNotSupported,
    /// A string field whose bytes are not UTF-8, with std's account of it.
    InvalidUtf8(std::string::FromUtf8Error),
    NestedExceedsBuffer,
    Overrun { pos: usize, end: usize },
    DepthExceeded(usize),
}

pub type Result<T> = core::result::Result<T, Error>;

/// The six protobuf wire types.
#[derive(Debug, Clone, Copy, PartialEq, Eq)]
pub enum WireType {
    Varint,
    Fixed64,
    LengthDelimited,
    StartGroup,
    EndGroup,
    Fixed32,
}

/// The three-bit code of a wire type on the wire.
pub open spec fn wire_type_code(wt: WireType) -> u8 {
    match wt {
        WireType::Varint => 0,
        WireType::Fixed64 => 1,
        WireType::LengthDelimited => 2,
        WireType::StartGroup => 3,
        WireType::EndGroup => 4,
        WireType::Fixed32 => 5,
    }
}

/// The wire type with the given code, if there is one.
pub open spec fn wire_type_of(v: u8) -> Option<WireType> {
    if v == 0 {
        Some(WireType::Varint)
    } else if v == 1 {
        Some(WireType::Fixed64)
    } else if v == 2 {
        Some(WireType::LengthDelimited)
    } else if v == 3 {
        Some(WireType::StartGroup)
    } else if v == 4 {
        Some(WireType::EndGroup)
    } else if v == 5 {
        Some(WireType::Fixed32)
    } else {
        None
    }
}

impl WireType {
    pub fn from_u8(v: u8) -> (res: Result<WireType>)
        ensures
            match wire_type_of(v) {
                Some(wt) => res == Ok::<WireType, Error>(wt),
                None => res == Err::<WireType, Error>(Error::UnknownWireType(v)),
            },
            res matches Ok(wt) ==> wire_type_code(wt) == v,
    {
        match v {
            0 => Ok(WireType::Varint),
            1 => Ok(WireType::Fixed64),
            2 => Ok(WireType::LengthDelimited),
            3 => Ok(WireType::StartGroup),
            4 => Ok(WireType::EndGroup),
            5 => Ok(WireType::Fixed32),
            _ => Err(Error::UnknownWireType(v)),
        }
    }

    pub fn code(self) -> (c: u8)
        ensures
            c == wire_type_code(self),
            wire_type_of(c) == Some(self),
    {
        match self {
            WireType::Varint => 0,
            WireType::Fixed64 => 1,
            WireType::LengthDelimited => 2,
            WireType::StartGroup => 3,
            WireType::EndGroup => 4,
            WireType::Fixed32 => 5,
        }
    }
}

/// Little-endian bytes of a 32-bit value.
pub open spec fn le32_bytes(v: u32) -> Seq<u8> {
    seq![(v & 0xff) as u8, ((v >> 8) & 0xff) as u8, ((v >> 16) & 0xff) as u8, ((v >> 24) & 0xff) as u8]
}

/// Little-endian bytes of a 64-bit value.
pub open spec fn le64_bytes(v: u64) -> Seq<u8> {
    seq![
        (v & 0xff) as u8,
        ((v >> 8) & 0xff) as u8,
        ((v >> 16) & 0xff) as u8,
        ((v >> 24) & 0xff) as u8,
        ((v >> 32) & 0xff) as u8,
        ((v >> 40) & 0xff) as u8,
        ((v >> 48) & 0xff) as u8,
        ((v >> 56) & 0xff) as u8,
    ]
}

/// The value of four little-endian bytes.
pub open spec fn le32_value(s: Seq<u8>) -> u32 {
    (s[0] as u32) | ((s[1] as u32) << 8u32) | ((s[2] as u32) << 16u32) | ((s[3] as u32) << 24u32)
}

/// The value of eight little-endian bytes.
pub open spec fn le64_value(s: Seq<u8>) -> u64 {
    (s[0] as u64) | ((s[1] as u64) << 8u64) | ((s[2] as u64) << 16u64) | ((s[3] as u64) << 24u64)
        | ((s[4] as u64) << 32u64) | ((s[5] as u64) << 40u64) | ((s[6] as u64) << 48u64) | ((
    s[7] as u64) << 56u64)
}

/// The tag varint of a field: `(field_number << 3) | wire_type`.
pub open spec fn tag_value(field_number: u32, wt: WireType) -> u64 {
    (((field_number as u64) << 3u64) | (wire_type_code(wt) as u64)) as u64
}

/// The bytes of a length-delimited field body: the varint length, then the bytes.
pub open spec fn length_delimited(b: Seq<u8>) -> Seq<u8> {
    varint_bytes(b.len() as u64) + b
}

/// Accumulates the wire encoding of a message.
pub struct Writer {
    buf: Vec<u8>,
}

impl View for Writer {
    type V = Seq<u8>;

    closed spec fn view(&self) -> Seq<u8> {
        self.buf@
    }
}

impl Writer {
    pub fn new() -> (w: Writer)
        ensures
            w@ == Seq::<u8>::empty(),
    {
        Writer { buf: Vec::new() }
    }

    pub fn with_capacity(cap: usize) -> (w: Writer)
        ensures
            w@ == Seq::<u8>::empty(),
    {
        Writer { buf: Vec::with_capacity(cap) }
    }

    pub fn finish(self) -> (out: Vec<u8>)
        ensures
            out@ == self@,
    {
        self.buf
    }

    pub fn len(&self) -> (n: usize)
        ensures
            n == self@.len(),
    {
        self.buf.len()
    }

    pub fn is_empty(&self) -> (b: bool)
        ensures
            b == (self@.len() == 0),
    {
        self.buf.len() == 0
    }

    /// Append raw bytes (no length prefix).
    pub fn raw(&mut self, b: &[u8])
        ensures
            final(self)@ == old(self)@ + b@,
    {
        let ghost start = self.buf@;
        let mut i: usize = 0;
        while i < b.len()
            invariant
                i <= b.len(),
                self.buf@ == start + b@.subrange(0, i as int),
            decreases b.len() - i,
        {
            self.buf.push(b[i]);
            i = i + 1;
            assert(b@.subrange(0, i as int) == b@.subrange(0, (i - 1) as int).push(b@[i - 1]));
        }
        assert(b@.subrange(0, b.len() as int) == b@);
    }

    /// Write an unsigned varint.
    pub fn varint(&mut self, v: u64)
        ensures
            final(self)@ == old(self)@ + varint_bytes(v),
    {
        let ghost start = self.buf@;
        let mut x = v;
        while x >= 0x80
            invariant
                self.buf@ + varint_bytes(x) == start + varint_bytes(v),
            decreases x,
        {
            proof {
                lemma_shr7_decreases(x);
            }
            let ghost before = self.buf@;
            let b = ((x & 0x7f) as u8) | 0x80;
            assert(b == (((x & 0x7f) | 0x80) as u8)) by (bit_vector)
                requires
                    b == ((x & 0x7f) as u8) | 0x80,
            ;
            self.buf.push(b);
            assert(varint_bytes(x) == seq![b] + varint_bytes(x >> 7));
            assert(self.buf@ + varint_bytes(x >> 7) == before + varint_bytes(x));
            x = x >> 7;
        }
        self.buf.push(x as u8);
    }

    /// Proto3 `int32`: plain varint, with negative values sign-extended to a
    /// 10-byte uint64.
    pub fn varint_i32(&mut self, v: i32)
        ensures
            final(self)@ == old(self)@ + varint_bytes(v as i64 as u64),
    {
        self.varint(v as i64 as u64);
    }

    /// Proto3 `int64`: plain varint, two's-complement uint64 form.
    pub fn varint_i64(&mut self, v: i64)
        ensures
            final(self)@ == old(self)@ + varint_bytes(v as u64),
    {
        self.varint(v as u64);
    }

    /// Zigzag-encoded signed varint (proto3 `sint32`).
    pub fn zigzag32(&mut self, v: i32)
        ensures
            final(self)@ == old(self)@ + varint_bytes(zigzag32_spec(v) as u64),
    {
        let u = zigzag32_encode(v);
        self.varint(u as u64);
    }

    /// Zigzag-encoded signed varint (proto3 `sint64`).
    pub fn zigzag64(&mut self, v: i64)
        ensures
            final(self)@ == old(self)@ + varint_bytes(zigzag64_spec(v)),
    {
        let u = zigzag64_encode(v);
        self.varint(u);
    }

    /// Little-endian fixed 32-bit unsigned integer.
    pub fn fixed32(&mut self, v: u32)
        ensures
            final(self)@ == old(self)@ + le32_bytes(v),
    {
        self.buf.push((v & 0xff) as u8);
        self.buf.push(((v >> 8) & 0xff) as u8);
        self.buf.push(((v >> 16) & 0xff) as u8);
        self.buf.push(((v >> 24) & 0xff) as u8);
    }

    /// Little-endian fixed 64-bit unsigned integer.
    pub fn fixed64(&mut self, v: u64)
        ensures
            final(self)@ == old(self)@ + le64_bytes(v),
    {
        self.buf.push((v & 0xff) as u8);
        self.buf.push(((v >> 8) & 0xff) as u8);
        self.buf.push(((v >> 16) & 0xff) as u8);
        self.buf.push(((v >> 24) & 0xff) as u8);
        self.buf.push(((v >> 32) & 0xff) as u8);
        self.buf.push(((v >> 40) & 0xff) as u8);
        self.buf.push(((v >> 48) & 0xff) as u8);
        self.buf.push(((v >> 56) & 0xff) as u8);
    }

    /// UTF-8 length-prefixed string.
    pub fn string(&mut self, v: &str)
        ensures
            final(self)@ == old(self)@ + length_delimited(v.spec_bytes()),
    {
        self.bytes(v.as_bytes());
    }

    /// Length-prefixed byte sequence.
    pub fn bytes(&mut self, v: &[u8])
        ensures
            final(self)@ == old(self)@ + length_delimited(v@),
    {
        self.varint(v.len() as u64);
        self.raw(v);
    }

    /// Tag = (field_number << 3) | wire_type, encoded as a varint. Field
    /// numbers run from 1 to 2^29 - 1.
    pub fn tag(&mut self, field_number: u32, wire_type: WireType)
        requires
            1 <= field_number <= 0x1fff_ffff,
        ensures
            final(self)@ == old(self)@ + varint_bytes(tag_value(field_number, wire_type)),
    {
        let t = ((field_number as u64) << 3) | (wire_type.code() as u64);
        self.varint(t);
    }
}

/// How many bytes a varint read consumes from `s`, successful or not: the
/// varint itself, everything up to the end of a truncated input, or the ten
/// bytes of an over-long one.
pub open spec fn varint_consumed(s: Seq<u8>) -> nat {
    match varint_scan(s, 0) {
        VarintScan::Done(n) => n,
        VarintScan::Truncated => s.len(),
        VarintScan::TooLong => 10,
    }
}

/// The error of a failed varint read of `s`.
pub open spec fn varint_error(s: Seq<u8>) -> Error {
    match varint_scan(s, 0) {
        VarintScan::TooLong => Error::VarintTooLong,
        _ => Error::TruncatedVarint,
    }
}

/// Reads wire-format values from a byte slice, front to back.
pub struct Reader<'a> {
    pub(crate) data: &'a [u8],
    pub(crate) pos: usize,
    /// Open submessages, counted by `read_message` across re-entry.
    pub(crate) depth: usize,
}

impl<'a> Reader<'a> {
    #[verifier::type_invariant]
    spec fn inv(self) -> bool {
        self.pos <= self.data@.len()
    }

    /// The whole input.
    pub closed spec fn input(&self) -> Seq<u8> {
        self.data@
    }

    /// The offset of the next unread byte.
    pub closed spec fn position(&self) -> nat {
        self.pos as nat
    }

    /// How many submessages are open.
    pub closed spec fn nesting(&self) -> nat {
        self.depth as nat
    }

    /// The unread bytes.
    pub open spec fn rest(&self) -> Seq<u8> {
        self.input().subrange(self.position() as int, self.input().len() as int)
    }

    pub fn new(data: &'a [u8]) -> (r: Reader<'a>)
        ensures
            r.input() == data@,
            r.position() == 0,
            r.nesting() == 0,
    {
        Reader { data, pos: 0, depth: 0 }
    }

    pub fn data(&self) -> (d: &'a [u8])
        ensures
            d@ == self.input(),
    {
        self.data
    }

    /// The offset of the next unread byte.
    pub fn pos(&self) -> (p: usize)
        ensures
            p == self.position(),
            p <= self.input().len(),
    {
        proof {
            use_type_invariant(self);
        }
        self.pos
    }

    pub fn eof(&self) -> (b: bool)
        ensures
            b == (self.position() >= self.input().len()),
    {
        self.pos >= self.data.len()
    }

    pub fn remaining(&self) -> (n: usize)
        ensures
            n == self.input().len() - self.position(),
    {
        proof {
            use_type_invariant(self);
        }
        self.data.len() - self.pos
    }

    /// Open one more submessage.
    pub(crate) fn enter_nested(&mut self)
        requires
            old(self).nesting() < usize::MAX,
        ensures
            final(self).input() == old(self).input(),
            final(self).position() == old(self).position(),
            final(self).nesting() == old(self).nesting() + 1,
    {
        proof {
            use_type_invariant(&*self);
        }
        self.depth = self.depth + 1;
    }

    /// Close the innermost open submessage.
    pub(crate) fn leave_nested(&mut self)
        requires
            old(self).nesting() > 0,
        ensures
            final(self).input() == old(self).input(),
            final(self).position() == old(self).position(),
            final(self).nesting() == old(self).nesting() - 1,
    {
        proof {
            use_type_invariant(&*self);
        }
        self.depth = self.depth - 1;
    }

    /// How many submessages are open.
    pub(crate) fn depth(&self) -> (d: usize)
        ensures
            d == self.nesting(),
    {
        self.depth
    }

    /// Read an unsigned varint of at most 10 bytes (uint64 range).
    pub fn varint(&mut self) -> (res: Result<u64>)
        ensures
            final(self).input() == old(self).input(),
            final(self).nesting() == old(self).nesting(),
            final(self).position() == old(self).position() + varint_consumed(old(self).rest()),
            match varint_decode(old(self).rest()) {
                Some((v, _)) => res == Ok::<u64, Error>(v),
                None => res == Err::<u64, Error>(varint_error(old(self).rest())),
            },
    {
        proof {
            use_type_invariant(&*self);
        }
        let ghost s = self.rest();
        let ghost p0 = self.pos;
        let mut result: u64 = 0;
        let mut i: usize = 0;
        loop
            invariant
                i < 10,
                p0 == old(self).pos,
                s == old(self).rest(),
                s == self.data@.subrange(p0 as int, self.data@.len() as int),
                self.pos == p0 + i,
                self.pos <= self.data@.len(),
                self.data@ == old(self).data@,
                self.depth == old(self).depth,
                result == varint_acc(s, i as nat),
                varint_scan(s, 0) == varint_scan(s, i as nat),
            decreases 10 - i,
        {
            if self.pos >= self.data.len() {
                return Err(Error::TruncatedVarint);
            }
            let byte = self.data[self.pos];
            assert(byte == s[i as int]);
            self.pos = self.pos + 1;
            result = result | ((((byte & 0x7f) as u64) << ((7 * i) as u64)) as u64);
            if byte & 0x80 == 0 {
                return Ok(result);
            }
            if i == 9 {
                assert(varint_scan(s, i as nat) == VarintScan::TooLong);
                return Err(Error::VarintTooLong);
            }
            i = i + 1;
        }
    }

    /// Decode a zigzag varint as a 32-bit signed integer.
    pub fn zigzag32(&mut self) -> (res: Result<i32>)
        ensures
            final(self).input() == old(self).input(),
            final(self).nesting() == old(self).nesting(),
            final(self).position() == old(self).position() + varint_consumed(old(self).rest()),
            match varint_decode(old(self).rest()) {
                Some((v, _)) => res == Ok::<i32, Error>(unzigzag32_spec(v as u32)),
                None => res == Err::<i32, Error>(varint_error(old(self).rest())),
            },
    {
        let u = self.varint()?;
        Ok(zigzag32_decode(u as u32))
    }

    /// Decode a zigzag varint as a 64-bit signed integer.
    pub fn zigzag64(&mut self) -> (res: Result<i64>)
        ensures
            final(self).input() == old(self).input(),
            final(self).nesting() == old(self).nesting(),
            final(self).position() == old(self).position() + varint_consumed(old(self).rest()),
            match varint_decode(old(self).rest()) {
                Some((v, _)) => res == Ok::<i64, Error>(unzigzag64_spec(v)),
                None => res == Err::<i64, Error>(varint_error(old(self).rest())),
            },
    {
        let u = self.varint()?;
        Ok(zigzag64_decode(u))
    }

    pub fn fixed32(&mut self) -> (res: Result<u32>)
        ensures
            final(self).input() == old(self).input(),
            final(self).nesting() == old(self).nesting(),
            old(self).rest().len() >= 4 ==> res == Ok::<u32, Error>(le32_value(old(self).rest()))
                && final(self).position() == old(self).position() + 4,
            old(self).rest().len() < 4 ==> res == Err::<u32, Error>(Error::TruncatedFixed32)
                && final(self).position() == old(self).position(),
    {
        proof {
            use_type_invariant(&*self);
        }
        if self.data.len() - self.pos < 4 {
            return Err(Error::TruncatedFixed32);
        }
        let p = self.pos;
        let v = (self.data[p] as u32) | ((self.data[p + 1] as u32) << 8) | ((self.data[p + 2] as u32)
            << 16) | ((self.data[p + 3] as u32) << 24);
        self.pos = p + 4;
        Ok(v)
    }

    pub fn fixed64(&mut self) -> (res: Result<u64>)
        ensures
            final(self).input() == old(self).input(),
            final(self).nesting() == old(self).nesting(),
            old(self).rest().len() >= 8 ==> res == Ok::<u64, Error>(le64_value(old(self).rest()))
                && final(self).position() == old(self).position() + 8,
            old(self).rest().len() < 8 ==> res == Err::<u64, Error>(Error::TruncatedFixed64)
                && final(self).position() == old(self).position(),
    {
        proof {
            use_type_invariant(&*self);
        }
        if self.data.len() - self.pos < 8 {
            return Err(Error::TruncatedFixed64);
        }
        let p = self.pos;
        let d = self.data;
        let v = (d[p] as u64) | ((d[p + 1] as u64) << 8) | ((d[p + 2] as u64) << 16) | ((d[p
            + 3] as u64) << 24) | ((d[p + 4] as u64) << 32) | ((d[p + 5] as u64) << 40) | ((d[p
            + 6] as u64) << 48) | ((d[p + 7] as u64) << 56);
        self.pos = p + 8;
        Ok(v)
    }

    /// Read a varint length and check that the bytes it announces are there.
    /// Shared by every length-delimited read, so that a length near 2^64
    /// cannot wrap the end offset past the bounds check.
    fn read_length(&mut self) -> (res: Result<usize>)
        ensures
            final(self).input() == old(self).input(),
            final(self).nesting() == old(self).nesting(),
            final(self).position() >= old(self).position(),
            res matches Ok(l) ==> l <= final(self).input().len() - final(self).position(),
            length_prefix_ok(old(self).rest()) ==> res == Ok::<usize, Error>(
                varint_decode(old(self).rest()).unwrap().0 as usize) && final(self).position()
                == old(self).position() + varint_decode(old(self).rest()).unwrap().1,
            !length_prefix_ok(old(self).rest()) ==> res is Err,
            varint_decode(old(self).rest()) is None ==> res == Err::<usize, Error>(varint_error(
                old(self).rest())),
            varint_decode(old(self).rest()) is Some && !length_prefix_ok(old(self).rest()) ==> res
                == Err::<usize, Error>(Error::TruncatedLengthDelim),
    {
        let len = self.varint()?;
        proof {
            use_type_invariant(&*self);
        }
        if len > (self.data.len() - self.pos) as u64 {
            return Err(Error::TruncatedLengthDelim);
        }
        Ok(len as usize)
    }

    /// Length-prefixed bytes, borrowed from the input.
    pub fn bytes_view(&mut self) -> (res: Result<&'a [u8]>)
        ensures
            final(self).input() == old(self).input(),
            final(self).nesting() == old(self).nesting(),
            final(self).position() >= old(self).position(),
            match length_delimited_decode(old(self).rest()) {
                Some((b, n)) => res matches Ok(v) && v@ == b && final(self).position() == old(
                    self).position() + n,
                None => res is Err,
            },
            varint_decode(old(self).rest()) is Some && !length_prefix_ok(old(self).rest()) ==> res
                == Err::<&'a [u8], Error>(Error::TruncatedLengthDelim),
    {
        let ghost s = self.rest();
        let len = self.read_length()?;
        proof {
            use_type_invariant(&*self);
        }
        let start = self.pos;
        let n = self.data.len();
        assert(len <= n - start);
        let end = start + len;
        let view = vstd::slice::slice_subrange(self.data, start, end);
        self.pos = end;
        proof {
            let n = varint_decode(s).unwrap().1;
            assert(view@ == s.subrange(n as int, n + len));
        }
        Ok(view)
    }

    /// Length-prefixed bytes, copied.
    pub fn bytes(&mut self) -> (res: Result<Vec<u8>>)
        ensures
            final(self).input() == old(self).input(),
            final(self).nesting() == old(self).nesting(),
            final(self).position() >= old(self).position(),
            match length_delimited_decode(old(self).rest()) {
                Some((b, n)) => res matches Ok(v) && v@ == b && final(self).position() == old(
                    self).position() + n,
                None => res is Err,
            },
    {
        let v = self.bytes_view()?;
        Ok(bytes_to_vec(v))
    }

    /// UTF-8 length-prefixed string.
    pub fn string(&mut self) -> (res: Result<String>)
        ensures
            final(self).input() == old(self).input(),
            final(self).nesting() == old(self).nesting(),
            final(self).position() >= old(self).position(),
            match length_delimited_decode(old(self).rest()) {
                Some((b, n)) => final(self).position() == old(self).position() + n && if valid_utf8(
                    b,
                ) {
                    res matches Ok(s) && s@ == decode_utf8(b)
                } else {
                    res matches Err(Error::InvalidUtf8(_))
                },
                None => res is Err,
            },
    {
        let v = self.bytes_view()?;
        match string_from_utf8(bytes_to_vec(v)) {
            Ok(s) => Ok(s),
            Err(e) => Err(Error::InvalidUtf8(e)),
        }
    }

    /// Decode a tag varint into (field_number, wire_type).
    pub fn tag(&mut self) -> (res: Result<(u32, WireType)>)
        ensures
            final(self).input() == old(self).input(),
            final(self).nesting() == old(self).nesting(),
            final(self).position() == old(self).position() + varint_consumed(old(self).rest()),
            match varint_decode(old(self).rest()) {
                Some((t, _)) => match wire_type_of((t & 7) as u8) {
                    Some(wt) => if (t >> 3) as u32 == 0 {
                        res == Err::<(u32, WireType), Error>(Error::InvalidTag(
                            final(self).position() as usize,
                        ))
                    } else {
                        res == Ok::<(u32, WireType), Error>(((t >> 3) as u32, wt))
                    },
                    None => res == Err::<(u32, WireType), Error>(Error::UnknownWireType(
                        (t & 7) as u8,
                    )),
                },
                None => res == Err::<(u32, WireType), Error>(varint_error(old(self).rest())),
            },
    {
        let t = self.varint()?;
        let wire_type = WireType::from_u8((t & 0x7) as u8)?;
        let field_number = (t >> 3) as u32;
        if field_number == 0 {
            return Err(Error::InvalidTag(self.pos));
        }
        Ok((field_number, wire_type))
    }

    /// Skip the value of a field with the given wire type.
    pub fn skip(&mut self, wire_type: WireType) -> (res: Result<()>)
        ensures
            final(self).input() == old(self).input(),
            final(self).nesting() == old(self).nesting(),
            final(self).position() >= old(self).position(),
            res is Ok ==> final(self).position() == old(self).position() + skip_len(
                old(self).rest(),
                wire_type,
            ).unwrap(),
            skip_len(old(self).rest(), wire_type) is Some <==> res is Ok,
            wire_type == WireType::StartGroup || wire_type == WireType::EndGroup ==> res
                == Err::<(), Error>(Error::GroupNotSupported),
            varint_decode(old(self).rest()) is Some && !length_prefix_ok(old(self).rest())
                && wire_type == WireType::LengthDelimited ==> res == Err::<(), Error>(
                Error::TruncatedLengthDelim),
    {
        proof {
            use_type_invariant(&*self);
        }
        match wire_type {
            WireType::Varint => {
                self.varint()?;
            },
            WireType::Fixed64 => {
                if self.data.len() - self.pos < 8 {
                    return Err(Error::TruncatedFixed64);
                }
                self.pos = self.pos + 8;
            },
            WireType::LengthDelimited => {
                let len = self.read_length()?;
                proof {
                    use_type_invariant(&*self);
                }
                let n = self.data.len();
                assert(len <= n - self.pos);
                self.pos = self.pos + len;
            },
            WireType::Fixed32 => {
                if self.data.len() - self.pos < 4 {
                    return Err(Error::TruncatedFixed32);
                }
                self.pos = self.pos + 4;
            },
            WireType::StartGroup | WireType::EndGroup => {
                return Err(Error::GroupNotSupported);
            },
        }
        Ok(())
    }
}

/// The unread bytes hold a complete varint whose value fits the bytes after it.
pub open spec fn length_prefix_ok(s: Seq<u8>) -> bool {
    match varint_decode(s) {
        Some((len, n)) => len <= s.len() - n,
        None => false,
    }
}

/// A length-delimited value at the start of `s`: the bytes and the total number
/// of bytes it takes, prefix included.
pub open spec fn length_delimited_decode(s: Seq<u8>) -> Option<(Seq<u8>, nat)> {
    match varint_decode(s) {
        Some((len, n)) => if len <= s.len() - n {
            Some((s.subrange(n as int, n + len), (n + len) as nat))
        } else {
            None
        },
        None => None,
    }
}

/// How many bytes the value of a field of wire type `wt` takes at the start of
/// `s`, or `None` when `s` does not hold one.
pub open spec fn skip_len(s: Seq<u8>, wt: WireType) -> Option<nat> {
    match wt {
        WireType::Varint => match varint_decode(s) {
            Some((_, n)) => Some(n),
            None => None,
        },
        WireType::Fixed64 => if s.len() >= 8 {
            Some(8)
        } else {
            None
        },
        WireType::LengthDelimited => match length_delimited_decode(s) {
            Some((_, n)) => Some(n),
            None => None,
        },
        WireType::Fixed32 => if s.len() >= 4 {
            Some(4)
        } else {
            None
        },
        _ => None,
    }
}

/// Reading back what `Writer::fixed32` wrote gives the value.
pub proof fn lemma_fixed32_round_trip(v: u32, rest: Seq<u8>)
    ensures
        (le32_bytes(v) + rest).len() >= 4,
        le32_value(le32_bytes(v) + rest) == v,
{
    let s = le32_bytes(v) + rest;
    assert(s[0] == (v & 0xff) as u8 && s[1] == ((v >> 8) & 0xff) as u8 && s[2] == ((v >> 16)
        & 0xff) as u8 && s[3] == ((v >> 24) & 0xff) as u8);
    let (a, b, c, d) = (s[0], s[1], s[2], s[3]);
    assert((a as u32) | ((b as u32) << 8u32) | ((c as u32) << 16u32) | ((d as u32) << 24u32) == v)
        by (bit_vector)
        requires
            a == (v & 0xff) as u8,
            b == ((v >> 8) & 0xff) as u8,
            c == ((v >> 16) & 0xff) as u8,
            d == ((v >> 24) & 0xff) as u8,
    ;
}

/// Reading back what `Writer::fixed64` wrote gives the value.
pub proof fn lemma_fixed64_round_trip(v: u64, rest: Seq<u8>)
    ensures
        (le64_bytes(v) + rest).len() >= 8,
        le64_value(le64_bytes(v) + rest) == v,
{
    let s = le64_bytes(v) + rest;
    let (b0, b1, b2, b3, b4, b5, b6, b7) = (s[0], s[1], s[2], s[3], s[4], s[5], s[6], s[7]);
    assert(b0 == (v & 0xff) as u8 && b1 == ((v >> 8) & 0xff) as u8 && b2 == ((v >> 16) & 0xff)
        as u8 && b3 == ((v >> 24) & 0xff) as u8 && b4 == ((v >> 32) & 0xff) as u8 && b5 == ((v
        >> 40) & 0xff) as u8 && b6 == ((v >> 48) & 0xff) as u8 && b7 == ((v >> 56) & 0xff) as u8);
    assert((b0 as u64) | ((b1 as u64) << 8u64) | ((b2 as u64) << 16u64) | ((b3 as u64) << 24u64)
        | ((b4 as u64) << 32u64) | ((b5 as u64) << 40u64) | ((b6 as u64) << 48u64) | ((b7 as u64)
        << 56u64) == v) by (bit_vector)
        requires
            b0 == (v & 0xff) as u8,
            b1 == ((v >> 8) & 0xff) as u8,
            b2 == ((v >> 16) & 0xff) as u8,
            b3 == ((v >> 24) & 0xff) as u8,
            b4 == ((v >> 32) & 0xff) as u8,
            b5 == ((v >> 40) & 0xff) as u8,
            b6 == ((v >> 48) & 0xff) as u8,
            b7 == ((v >> 56) & 0xff) as u8,
    ;
}

/// Reading back what `Writer::bytes` (or `Writer::string`) wrote gives the
/// bytes, and consumes exactly the length prefix and the bytes.
pub proof fn lemma_length_delimited_round_trip(b: Seq<u8>, rest: Seq<u8>)
    requires
        b.len() <= u64::MAX,
    ensures
        length_delimited_decode(length_delimited(b) + rest) == Some(
            (b, (varint_bytes(b.len() as u64).len() + b.len()) as nat),
        ),
{
    let e = varint_bytes(b.len() as u64);
    let s = length_delimited(b) + rest;
    assert(s == e + (b + rest));
    lemma_varint_round_trip(b.len() as u64, b + rest);
    assert(s.subrange(e.len() as int, (e.len() + b.len()) as int) == b);
}

/// Reading back a tag written by `Writer::tag` gives the field number and the
/// wire type.
pub proof fn lemma_tag_round_trip(field_number: u32, wt: WireType, rest: Seq<u8>)
    requires
        1 <= field_number <= 0x1fff_ffff,
    ensures
        varint_decode(varint_bytes(tag_value(field_number, wt)) + rest) == Some(
            (tag_value(field_number, wt), varint_bytes(tag_value(field_number, wt)).len()),
        ),
        wire_type_of((tag_value(field_number, wt) & 7) as u8) == Some(wt),
        (tag_value(field_number, wt) >> 3) as u32 == field_number,
{
    let t = tag_value(field_number, wt);
    lemma_varint_round_trip(t, rest);
    let c = wire_type_code(wt);
    assert(c <= 5);
    assert(((((field_number as u64) << 3u64) | (c as u64)) & 7) as u8 == c) by (bit_vector)
        requires
            c <= 5,
    ;
    assert(((((field_number as u64) << 3u64) | (c as u64)) >> 3) as u32 == field_number) by (
    bit_vector)
        requires
            c <= 5,
            field_number <= 0x1fff_ffff,
    ;
}

pub fn zigzag32_encode(v: i32) -> (u: u32)
    ensures
        u == zigzag32_spec(v),
{
    let x = v as u32;
    let u = (x << 1) ^ (if v < 0 { 0xffff_ffffu32 } else { 0u32 });
    assert(u == zigzag32_spec(v)) by (bit_vector)
        requires
            x == v as u32,
            u == (x << 1) ^ (if v < 0 { 0xffff_ffffu32 } else { 0u32 }),
    ;
    u
}

pub fn zigzag64_encode(v: i64) -> (u: u64)
    ensures
        u == zigzag64_spec(v),
{
    let x = v as u64;
    let u = (x << 1) ^ (if v < 0 { 0xffff_ffff_ffff_ffffu64 } else { 0u64 });
    assert(u == zigzag64_spec(v)) by (bit_vector)
        requires
            x == v as u64,
            u == (x << 1) ^ (if v < 0 { 0xffff_ffff_ffff_ffffu64 } else { 0u64 }),
    ;
    u
}

pub fn zigzag32_decode(u: u32) -> (v: i32)
    ensures
        v == unzigzag32_spec(u),
{
    let half = (u >> 1) as i32;
    let v = if u & 1 == 0 { half } else { !half };
    assert(v == unzigzag32_spec(u)) by (bit_vector)
        requires
            half == (u >> 1) as i32,
            v == if u & 1 == 0 { half } else { !half },
    ;
    v
}

pub fn zigzag64_decode(u: u64) -> (v: i64)
    ensures
        v == unzigzag64_spec(u),
{
    let half = (u >> 1) as i64;
    let v = if u & 1 == 0 { half } else { !half };
    assert(v == unzigzag64_spec(u)) by (bit_vector)
        requires
            half == (u >> 1) as i64,
            v == if u & 1 == 0 { half } else { !half },
    ;
    v
}

} // verus!
