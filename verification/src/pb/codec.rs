//! Schema-driven binary marshal/unmarshal via the [`Message`] trait.
//!
//! Each message type implements `Message` to encode/decode its own fields
//! one at a time over the wire primitives in [`crate::pb::wire`]. Helpers
//! for nested-message blobs live here so impls stay short.
use vstd::prelude::*;
use vstd::utf8::encode_utf8;

use crate::pb::varint::{
    lemma_varint_bytes_shape, lemma_varint_round_trip, varint_bytes, varint_decode, varint_scan,
    VarintScan,
};
use crate::pb::wire::{
    lemma_tag_round_trip, length_delimited, tag_value, wire_type_of, Error, Reader, Result, WireType,
    Writer, MAX_NESTING_DEPTH,
};

verus! {

/// A message with self-contained encode/decode.
pub trait Message: Sized + Default {
    /// What decoding sees of a message.
    type Model;

    /// The message as its model; a type that tells nothing of its model has
    /// one that nothing is known of.
    open spec fn model(&self) -> Self::Model {
        vstd::pervasive::arbitrary()
    }

    /// The model of a message with no field set.
    open spec fn empty_model() -> Self::Model {
        vstd::pervasive::arbitrary()
    }

    /// Field `num` of wire type `wt`, its value at the start of `s`, merged
    /// into `m` at nesting `depth`: the new model and the number of bytes the
    /// value takes, or `None` when `s` does not hold a value that merges;
    /// none merges unless the type says otherwise.
    open spec fn merge_model(m: Self::Model, num: u32, wt: WireType, s: Seq<u8>, depth: nat) -> Option<
        (Self::Model, nat),
    > {
        None
    }

    /// The wire bytes of the message's fields, as `encode_to` appends them;
    /// none unless the type says otherwise.
    open spec fn wire(&self) -> Seq<u8> {
        Seq::empty()
    }

    /// A message with no field set, the one decoding starts from.
    fn empty() -> (m: Self)
        ensures
            m.model() == Self::empty_model(),
    ;

    /// Append the message's fields to `w`. The caller is responsible for the
    /// surrounding length prefix when used as a nested message.
    fn encode_to(&self, w: &mut Writer)
        ensures
            final(w)@ == old(w)@ + self.wire(),
    ;

    /// Merge a single field (its tag already read) into `self`, as
    /// [`Message::merge_model`] says. A reader only moves forward over the
    /// same input, and leaves the nesting count as it found it.
    fn merge_field(&mut self, field_number: u32, wire_type: WireType, r: &mut Reader<'_>) -> (res:
        Result<()>)
        requires
            old(r).nesting() <= MAX_NESTING_DEPTH,
        ensures
            final(r).input() == old(r).input(),
            final(r).position() >= old(r).position(),
            final(r).nesting() == old(r).nesting(),
            match Self::merge_model(
                old(self).model(),
                field_number,
                wire_type,
                old(r).rest(),
                old(r).nesting(),
            ) {
                Some((m, k)) => res is Ok && final(self).model() == m && final(r).position() == old(
                    r,
                ).position() + k,
                None => res is Err,
            },
    ;
}

/// The field number, wire type and length of the tag at the start of `s`.
pub open spec fn tag_at(s: Seq<u8>) -> Option<(u32, WireType, nat)> {
    match varint_decode(s) {
        Some((t, n)) => match wire_type_of((t & 7) as u8) {
            Some(wt) => if (t >> 3) as u32 == 0 {
                None
            } else {
                Some(((t >> 3) as u32, wt, n))
            },
            None => None,
        },
        None => None,
    }
}

/// The model of `m` after the fields in the first `limit` bytes of `s` are
/// merged into it at nesting `depth`, one after the other: `None` when a tag
/// or a value does not read, or the last field runs past `limit`.
#[verifier::opaque]
pub open spec fn decode_until<M: Message>(m: M::Model, s: Seq<u8>, limit: nat, depth: nat) -> Option<
    M::Model,
>
    decreases limit,
{
    if limit == 0 {
        Some(m)
    } else {
        match tag_at(s) {
            None => None,
            Some((num, wt, n)) => match M::merge_model(
                m,
                num,
                wt,
                s.subrange(n as int, s.len() as int),
                depth,
            ) {
                None => None,
                Some((m2, k)) => if n == 0 || n + k > limit {
                    None
                } else {
                    decode_until::<M>(
                        m2,
                        s.subrange((n + k) as int, s.len() as int),
                        (limit - n - k) as nat,
                        depth,
                    )
                },
            },
        }
    }
}

/// Where the first field that runs past `limit` ends, counted from the
/// start of `s`, when the fields before it merge into `m` one after the
/// other; `None` when decoding stops otherwise or no field runs past.
pub open spec fn overrun_at<M: Message>(m: M::Model, s: Seq<u8>, limit: nat, depth: nat) -> Option<nat>
    decreases limit,
{
    if limit == 0 {
        None
    } else {
        match tag_at(s) {
            None => None,
            Some((num, wt, n)) => match M::merge_model(
                m,
                num,
                wt,
                s.subrange(n as int, s.len() as int),
                depth,
            ) {
                None => None,
                Some((m2, k)) => if n == 0 {
                    None
                } else if n + k > limit {
                    Some((n + k) as nat)
                } else {
                    match overrun_at::<M>(
                        m2,
                        s.subrange((n + k) as int, s.len() as int),
                        (limit - n - k) as nat,
                        depth,
                    ) {
                        Some(p) => Some((n + k + p) as nat),
                        None => None,
                    }
                },
            },
        }
    }
}

/// The model a nested message at the start of `s` decodes to, and the bytes
/// it takes with its length prefix: `None` when the prefix does not read,
/// the bytes run past `s`, the nesting is already at its cap, or the fields
/// do not decode.
pub open spec fn nested_at<M: Message>(s: Seq<u8>, depth: nat) -> Option<(M::Model, nat)> {
    match varint_decode(s) {
        None => None,
        Some((len, n)) => if len > s.len() - n || depth >= MAX_NESTING_DEPTH {
            None
        } else {
            match decode_until::<M>(
                M::empty_model(),
                s.subrange(n as int, s.len() as int),
                len as nat,
                depth + 1,
            ) {
                Some(v) => Some((v, (n + len) as nat)),
                None => None,
            }
        },
    }
}

/// A length-delimited field: its tag, then the length-prefixed bytes.
pub open spec fn delimited_field(field_number: u32, b: Seq<u8>) -> Seq<u8> {
    varint_bytes(tag_value(field_number, WireType::LengthDelimited)) + length_delimited(b)
}

/// A proto3 `string` field: omitted when empty, else a length-delimited field
/// holding the UTF-8 bytes.
pub open spec fn string_field(field_number: u32, s: Seq<char>) -> Seq<u8> {
    if s.len() == 0 {
        Seq::empty()
    } else {
        delimited_field(field_number, encode_utf8(s))
    }
}

/// A proto3 `bytes` field: omitted when empty.
pub open spec fn bytes_field(field_number: u32, b: Seq<u8>) -> Seq<u8> {
    if b.len() == 0 {
        Seq::empty()
    } else {
        delimited_field(field_number, b)
    }
}

/// A `repeated string` field: one length-delimited field per element, empty
/// ones included, in order.
pub open spec fn repeated_string_field(field_number: u32, items: Seq<String>) -> Seq<u8>
    decreases items.len(),
{
    if items.len() == 0 {
        Seq::empty()
    } else {
        repeated_string_field(field_number, items.drop_last()) + delimited_field(
            field_number,
            encode_utf8(items.last()@),
        )
    }
}

/// A successful varint read consumes at least one byte.
pub proof fn lemma_varint_scan_progress(s: Seq<u8>, i: nat)
    requires
        i <= 9,
    ensures
        varint_scan(s, i) matches VarintScan::Done(n) ==> n > i,
    decreases 10 - i,
{
    if i < s.len() && s[i as int] & 0x80 != 0 && i < 9 {
        lemma_varint_scan_progress(s, i + 1);
    }
}

/// With no bytes left to read, decoding gives the model as it stands.
pub proof fn lemma_decode_done<M: Message>(m: M::Model, s: Seq<u8>, depth: nat)
    ensures
        decode_until::<M>(m, s, 0, depth) == Some(m),
{
    reveal(decode_until);
}

/// A field whose tag and value read is one step of decoding: what follows is
/// decoded from the merged model.
pub proof fn lemma_decode_field<M: Message>(
    m: M::Model,
    num: u32,
    wt: WireType,
    value: Seq<u8>,
    rest: Seq<u8>,
    limit: nat,
    depth: nat,
    m2: M::Model,
)
    requires
        1 <= num <= 0x1fff_ffff,
        M::merge_model(m, num, wt, value + rest, depth) == Some((m2, value.len())),
    ensures
        decode_until::<M>(
            m,
            varint_bytes(tag_value(num, wt)) + value + rest,
            varint_bytes(tag_value(num, wt)).len() + value.len() + limit,
            depth,
        ) == decode_until::<M>(m2, rest, limit, depth),
{
    reveal(decode_until);
    let t = varint_bytes(tag_value(num, wt));
    let s = t + value + rest;
    assert(s =~= t + (value + rest));
    lemma_tag_round_trip(num, wt, value + rest);
    lemma_varint_bytes_shape(tag_value(num, wt));
    assert(tag_at(s) == Some((num, wt, t.len())));
    assert(s.subrange(t.len() as int, s.len() as int) =~= value + rest);
    assert(s.subrange((t.len() + value.len()) as int, s.len() as int) =~= rest);
}

/// A message written with its length prefix reads back as a nested message
/// when its fields decode one level down.
pub proof fn lemma_nested_at<M: Message>(w: Seq<u8>, rest: Seq<u8>, depth: nat, v: M::Model)
    requires
        w.len() <= u64::MAX,
        depth < MAX_NESTING_DEPTH,
        decode_until::<M>(M::empty_model(), w + rest, w.len(), depth + 1) == Some(v),
    ensures
        nested_at::<M>(length_delimited(w) + rest, depth) == Some((v, length_delimited(w).len())),
{
    let p = varint_bytes(w.len() as u64);
    let s = length_delimited(w) + rest;
    assert(s =~= p + (w + rest));
    lemma_varint_round_trip(w.len() as u64, w + rest);
    assert(s.subrange(p.len() as int, s.len() as int) =~= w + rest);
}

/// Encode a message to a byte vector.
pub fn marshal<M: Message>(value: &M) -> (out: Vec<u8>)
    ensures
        out@ == value.wire(),
{
    let mut w = Writer::new();
    value.encode_to(&mut w);
    w.finish()
}

/// Decode a message from a byte slice: starting from `M::empty()`, each
/// tag in turn is read and its field handed to `merge_field`, until the input
/// is used up.
pub fn unmarshal<M: Message>(data: &[u8]) -> (res: Result<M>)
    ensures
        match decode_until::<M>(M::empty_model(), data@, data@.len(), 0) {
            Some(v) => res matches Ok(m) && m.model() == v,
            None => res is Err,
        },
{
    let mut r = Reader::new(data);
    let mut msg = M::empty();
    let ghost goal = decode_until::<M>(M::empty_model(), data@, data@.len(), 0);
    assert(r.rest() =~= data@);
    while !r.eof()
        invariant
            goal == decode_until::<M>(M::empty_model(), data@, data@.len(), 0),
            r.input() == data@,
            r.nesting() == 0,
            r.position() <= data@.len(),
            goal == decode_until::<M>(
                msg.model(),
                r.rest(),
                (data@.len() - r.position()) as nat,
                0,
            ),
        decreases r.input().len() - r.position(),
    {
        proof {
            reveal(decode_until);
        }
        let ghost before = r.position();
        let ghost s = r.rest();
        let ghost m0 = msg.model();
        let ghost limit = (data@.len() - before) as nat;
        assert(limit > 0);
        let (num, wt) = match r.tag() {
            Ok(t) => t,
            Err(e) => {
                assert(tag_at(s) is None);
                assert(decode_until::<M>(m0, s, limit, 0) is None);
                return Err(e);
            },
        };
        let _ = r.pos();
        proof {
            lemma_varint_scan_progress(s, 0);
            assert(r.rest() =~= s.subrange(
                varint_decode(s).unwrap().1 as int,
                s.len() as int,
            ));
        }
        let ghost s1 = r.rest();
        match msg.merge_field(num, wt, &mut r) {
            Ok(()) => {},
            Err(e) => {
                proof {
                    let n = varint_decode(s).unwrap().1;
                    assert(tag_at(s) == Some((num, wt, n)));
                    assert(M::merge_model(m0, num, wt, s1, 0) is None);
                    assert(decode_until::<M>(m0, s, limit, 0) is None);
                }
                return Err(e);
            },
        }
        let _ = r.pos();
        proof {
            let n = varint_decode(s).unwrap().1;
            let k = (r.position() - before - n) as nat;
            assert(r.rest() =~= s.subrange((n + k) as int, s.len() as int));
        }
    }
    proof {
        reveal(decode_until);
    }
    Ok(msg)
}

/// Write a nested message at `field_number` as a length-delimited blob.
pub fn write_message<M: Message>(w: &mut Writer, field_number: u32, msg: &M)
    requires
        1 <= field_number <= 0x1fff_ffff,
    ensures
        final(w)@ == old(w)@ + varint_bytes(tag_value(field_number, WireType::LengthDelimited))
            + length_delimited(msg.wire()),
{
    let mut inner = Writer::new();
    msg.encode_to(&mut inner);
    let bytes = inner.finish();
    w.tag(field_number, WireType::LengthDelimited);
    w.bytes(bytes.as_slice());
}

/// Read a length-delimited nested message; its tag is already consumed.
///
/// Refuses with [`Error::DepthExceeded`] before entering a submessage past
/// [`MAX_NESTING_DEPTH`]; the count lives on the `Reader`, so it holds across
/// `merge_field` → `read_message` re-entry. The length prefix is checked
/// against the input without overflow.
pub fn read_message<M: Message>(r: &mut Reader<'_>) -> (res: Result<M>)
    ensures
        final(r).input() == old(r).input(),
        final(r).nesting() == old(r).nesting(),
        final(r).position() >= old(r).position(),
        match varint_decode(old(r).rest()) {
            None => res is Err,
            Some((len, n)) => if len > old(r).rest().len() - n {
                res == Err::<M, Error>(Error::NestedExceedsBuffer)
            } else if old(r).nesting() >= MAX_NESTING_DEPTH {
                res == Err::<M, Error>(Error::DepthExceeded(MAX_NESTING_DEPTH))
            } else {
                &&& res is Ok ==> final(r).position() == old(r).position() + n + len
                &&& overrun_at::<M>(
                    M::empty_model(),
                    old(r).rest().subrange(n as int, old(r).rest().len() as int),
                    len as nat,
                    old(r).nesting() + 1,
                ) matches Some(p) ==> res == Err::<M, Error>(
                    Error::Overrun {
                        pos: (old(r).position() + n + p) as usize,
                        end: (old(r).position() + n + len) as usize,
                    },
                )
            },
        },
        match nested_at::<M>(old(r).rest(), old(r).nesting()) {
            Some((v, k)) => res matches Ok(m) && m.model() == v && final(r).position() == old(
                r,
            ).position() + k,
            None => res is Err,
        },
    decreases MAX_NESTING_DEPTH - old(r).nesting(), 0nat,
{
    let ghost s = r.rest();
    let len = r.varint()?;
    let p = r.pos();
    let n = r.data().len();
    if len > (n - p) as u64 {
        return Err(Error::NestedExceedsBuffer);
    }
    let end = p + len as usize;
    if r.depth() >= MAX_NESTING_DEPTH {
        return Err(Error::DepthExceeded(MAX_NESTING_DEPTH));
    }
    r.enter_nested();
    proof {
        let m = varint_decode(s).unwrap().1;
        assert(r.rest() =~= s.subrange(m as int, s.len() as int));
    }
    let result = read_fields::<M>(r, end);
    r.leave_nested();
    result
}

/// Merge fields into a fresh message until the reader reaches `end`, which
/// must then be exactly where the last field stopped.
fn read_fields<M: Message>(r: &mut Reader<'_>, end: usize) -> (res: Result<M>)
    requires
        old(r).position() <= end <= old(r).input().len(),
        1 <= old(r).nesting() <= MAX_NESTING_DEPTH,
    ensures
        final(r).input() == old(r).input(),
        final(r).nesting() == old(r).nesting(),
        final(r).position() >= old(r).position(),
        match decode_until::<M>(
            M::empty_model(),
            old(r).rest(),
            (end - old(r).position()) as nat,
            old(r).nesting(),
        ) {
            Some(v) => res matches Ok(m) && m.model() == v && final(r).position() == end,
            None => res is Err,
        },
        overrun_at::<M>(
            M::empty_model(),
            old(r).rest(),
            (end - old(r).position()) as nat,
            old(r).nesting(),
        ) matches Some(p) ==> res == Err::<M, Error>(
            Error::Overrun { pos: (old(r).position() + p) as usize, end },
        ),
    decreases MAX_NESTING_DEPTH - old(r).nesting(), 2nat,
{
    let mut msg = M::empty();
    let ghost goal = decode_until::<M>(
        M::empty_model(),
        old(r).rest(),
        (end - old(r).position()) as nat,
        old(r).nesting(),
    );
    let ghost over = overrun_at::<M>(
        M::empty_model(),
        old(r).rest(),
        (end - old(r).position()) as nat,
        old(r).nesting(),
    );
    while r.pos() < end
        invariant
            over == overrun_at::<M>(
                M::empty_model(),
                old(r).rest(),
                (end - old(r).position()) as nat,
                old(r).nesting(),
            ),
            r.position() <= end ==> over == match overrun_at::<M>(
                msg.model(),
                r.rest(),
                (end - r.position()) as nat,
                r.nesting(),
            ) {
                Some(p) => Some((r.position() - old(r).position() + p) as nat),
                None => None::<nat>,
            },
            r.position() > end ==> over == Some((r.position() - old(r).position()) as nat),
            goal == decode_until::<M>(
                M::empty_model(),
                old(r).rest(),
                (end - old(r).position()) as nat,
                old(r).nesting(),
            ),
            r.input() == old(r).input(),
            r.nesting() == old(r).nesting(),
            r.nesting() <= MAX_NESTING_DEPTH,
            r.position() >= old(r).position(),
            end <= r.input().len(),
            r.position() <= end ==> goal == decode_until::<M>(
                msg.model(),
                r.rest(),
                (end - r.position()) as nat,
                r.nesting(),
            ),
            r.position() > end ==> goal is None,
        decreases r.input().len() - r.position(),
    {
        proof {
            reveal(decode_until);
        }
        let ghost before = r.position();
        let ghost s = r.rest();
        let ghost m0 = msg.model();
        let ghost limit = (end - before) as nat;
        let ghost d = r.nesting();
        assert(limit > 0);
        let (num, wt) = match r.tag() {
            Ok(t) => t,
            Err(e) => {
                assert(tag_at(s) is None);
                assert(decode_until::<M>(m0, s, limit, d) is None);
                return Err(e);
            },
        };
        let _ = r.pos();
        proof {
            lemma_varint_scan_progress(s, 0);
            assert(r.rest() =~= s.subrange(
                varint_decode(s).unwrap().1 as int,
                s.len() as int,
            ));
        }
        let ghost s1 = r.rest();
        match msg.merge_field(num, wt, r) {
            Ok(()) => {},
            Err(e) => {
                proof {
                    let n = varint_decode(s).unwrap().1;
                    assert(tag_at(s) == Some((num, wt, n)));
                    assert(M::merge_model(m0, num, wt, s1, d) is None);
                    assert(decode_until::<M>(m0, s, limit, d) is None);
                }
                return Err(e);
            },
        }
        let _ = r.pos();
        proof {
            let n = varint_decode(s).unwrap().1;
            let k = (r.position() - before - n) as nat;
            assert(r.rest() =~= s.subrange((n + k) as int, s.len() as int));
        }
    }
    let p = r.pos();
    proof {
        reveal(decode_until);
    }
    if p != end {
        return Err(Error::Overrun { pos: p, end });
    }
    Ok(msg)
}

} // verus!
