//! Binary protobuf codec for [`Envelope`], [`AppError`], [`FieldError`].
//!
//! ```text
//! Envelope { status=1 int32, transport_error=2 string, data=3 bytes, error=4 AppError }
//! AppError { code=1 string, message=2 string, args=3 repeated string,
//!            details=4 repeated FieldError, metadata=5 map<string,string> }
//! FieldError { field=1 string, code=2 string, message=3 string, args=4 repeated string }
//! ```
//!
//! Status is a proto3 `int32`: a plain varint, sign-extended when negative.
use vstd::prelude::*;

use vstd::utf8::{
    decode_utf8, encode_utf8, encode_utf8_decode_utf8, encode_utf8_valid_utf8, valid_utf8,
};

use crate::envelope::{keys_unique, metadata_set, set_metadata, AppError, Envelope, FieldError};
use crate::pb::codec::{
    bytes_field, decode_until, delimited_field, lemma_decode_done, lemma_decode_field,
    lemma_nested_at, nested_at,
    read_message, repeated_string_field, string_field, tag_at, write_message, Message,
};
use crate::pb::varint::{
    lemma_varint_bytes_shape, lemma_varint_round_trip, varint_bytes, varint_decode,
};
use crate::pb::wire::{
    lemma_length_delimited_round_trip, lemma_tag_round_trip, length_delimited, length_delimited_decode, skip_len,
    tag_value, Reader, Result, WireType, Writer, MAX_NESTING_DEPTH,
};

verus! {

/// Each field error as a length-delimited field `field_number`, in order.
pub open spec fn repeated_field_errors(field_number: u32, items: Seq<FieldError>) -> Seq<u8>
    decreases items.len(),
{
    if items.len() == 0 {
        Seq::empty()
    } else {
        repeated_field_errors(field_number, items.drop_last()) + delimited_field(
            field_number,
            items.last().wire(),
        )
    }
}

/// The body of one `map<string, string>` entry: key = 1, value = 2.
pub open spec fn map_entry_body(k: Seq<char>, v: Seq<char>) -> Seq<u8> {
    string_field(1, k) + string_field(2, v)
}

/// Each metadata entry as a length-delimited map entry, in order.
pub open spec fn metadata_field(field_number: u32, m: Seq<(String, String)>) -> Seq<u8>
    decreases m.len(),
{
    if m.len() == 0 {
        Seq::empty()
    } else {
        metadata_field(field_number, m.drop_last()) + delimited_field(
            field_number,
            map_entry_body(m.last().0@, m.last().1@),
        )
    }
}

/// A proto3 `int32` field: omitted when zero, else a varint field holding the
/// sign-extended value.
pub open spec fn int32_field(field_number: u32, v: i32) -> Seq<u8> {
    if v == 0 {
        Seq::empty()
    } else {
        varint_bytes(tag_value(field_number, WireType::Varint)) + varint_bytes(v as i64 as u64)
    }
}

fn write_string_field(w: &mut Writer, field_number: u32, s: &String)
    requires
        1 <= field_number <= 0x1fff_ffff,
    ensures
        final(w)@ == old(w)@ + string_field(field_number, s@),
{
    if !s.as_str().is_empty() {
        w.tag(field_number, WireType::LengthDelimited);
        w.string(s.as_str());
    }
}

fn write_int32_field(w: &mut Writer, field_number: u32, v: i32)
    requires
        1 <= field_number <= 0x1fff_ffff,
    ensures
        final(w)@ == old(w)@ + int32_field(field_number, v),
{
    if v != 0 {
        w.tag(field_number, WireType::Varint);
        w.varint_i32(v);
    }
}

fn write_bytes_field(w: &mut Writer, field_number: u32, b: &Vec<u8>)
    requires
        1 <= field_number <= 0x1fff_ffff,
    ensures
        final(w)@ == old(w)@ + bytes_field(field_number, b@),
{
    if b.len() != 0 {
        w.tag(field_number, WireType::LengthDelimited);
        w.bytes(b.as_slice());
    }
}

fn write_repeated_strings(w: &mut Writer, field_number: u32, items: &Vec<String>)
    requires
        1 <= field_number <= 0x1fff_ffff,
    ensures
        final(w)@ == old(w)@ + repeated_string_field(field_number, items@),
{
    let ghost start = w@;
    let mut i: usize = 0;
    while i < items.len()
        invariant
            1 <= field_number <= 0x1fff_ffff,
            i <= items@.len(),
            w@ == start + repeated_string_field(field_number, items@.subrange(0, i as int)),
        decreases items@.len() - i,
    {
        let ghost before = w@;
        w.tag(field_number, WireType::LengthDelimited);
        w.string(items[i].as_str());
        proof {
            let sub = items@.subrange(0, i + 1);
            assert(sub.drop_last() == items@.subrange(0, i as int));
            assert(w@ == start + repeated_string_field(field_number, sub));
        }
        i = i + 1;
    }
    proof {
        assert(items@.subrange(0, items@.len() as int) == items@);
    }
}

// ---------------------------------------------------------------- what decoding sees

/// A field error as decoding sees it.
pub struct FieldErrorModel {
    pub field: Seq<char>,
    pub code: Seq<char>,
    pub message: Seq<char>,
    pub args: Seq<Seq<char>>,
}

/// An application error as decoding sees it.
pub struct AppErrorModel {
    pub code: Seq<char>,
    pub message: Seq<char>,
    pub args: Seq<Seq<char>>,
    pub details: Seq<FieldErrorModel>,
    pub metadata: Seq<(Seq<char>, Seq<char>)>,
}

/// An envelope as decoding sees it.
pub struct EnvelopeModel {
    pub status: i32,
    pub transport_error: Seq<char>,
    pub data: Seq<u8>,
    pub error: Option<AppErrorModel>,
}

pub open spec fn texts(v: Seq<String>) -> Seq<Seq<char>> {
    v.map_values(|x: String| x@)
}

pub open spec fn field_error_model(fe: FieldError) -> FieldErrorModel {
    FieldErrorModel { field: fe.field@, code: fe.code@, message: fe.message@, args: texts(fe.args@) }
}

/// The field errors as decoding sees them.
pub open spec fn field_error_models(v: Seq<FieldError>) -> Seq<FieldErrorModel> {
    v.map_values(|fe: FieldError| field_error_model(fe))
}

pub open spec fn pairs(m: Seq<(String, String)>) -> Seq<(Seq<char>, Seq<char>)> {
    m.map_values(|p: (String, String)| (p.0@, p.1@))
}

pub open spec fn app_error_model(e: AppError) -> AppErrorModel {
    AppErrorModel {
        code: e.code@,
        message: e.message@,
        args: texts(e.args@),
        details: field_error_models(e.details@),
        metadata: pairs(e.metadata@),
    }
}

/// A UTF-8 length-delimited string at the start of `s`, and the bytes it
/// takes.
pub open spec fn string_at(s: Seq<u8>) -> Option<(Seq<char>, nat)> {
    match length_delimited_decode(s) {
        Some((b, n)) => if valid_utf8(b) {
            Some((decode_utf8(b), n))
        } else {
            None
        },
        None => None,
    }
}

/// The first position at or after `i` whose key is `k`.
pub open spec fn key_index(ms: Seq<(Seq<char>, Seq<char>)>, k: Seq<char>, i: int) -> Option<int>
    decreases ms.len() - i,
{
    if i < 0 || i >= ms.len() {
        None
    } else if ms[i].0 == k {
        Some(i)
    } else {
        key_index(ms, k, i + 1)
    }
}

/// `ms` with `k` set to `v`: the value of its first entry replaced, or a new
/// entry appended.
pub open spec fn meta_set(ms: Seq<(Seq<char>, Seq<char>)>, k: Seq<char>, v: Seq<char>) -> Seq<
    (Seq<char>, Seq<char>),
> {
    match key_index(ms, k, 0) {
        Some(i) => ms.update(i, (k, v)),
        None => ms.push((k, v)),
    }
}

/// The key and value fields of a map entry's body, read until `limit` bytes
/// are used, the last field possibly running past it: the key, the value
/// and the bytes used.
pub open spec fn entry_fields(k: Seq<char>, v: Seq<char>, s: Seq<u8>, limit: nat) -> Option<
    (Seq<char>, Seq<char>, nat),
>
    decreases limit,
{
    if limit == 0 {
        Some((k, v, 0))
    } else {
        match tag_at(s) {
            None => None,
            Some((num, wt, n)) => {
                let rest = s.subrange(n as int, s.len() as int);
                let step = if num == 1 {
                    match string_at(rest) {
                        Some((x, c)) => Some((x, v, c)),
                        None => None,
                    }
                } else if num == 2 {
                    match string_at(rest) {
                        Some((x, c)) => Some((k, x, c)),
                        None => None,
                    }
                } else {
                    match skip_len(rest, wt) {
                        Some(c) => Some((k, v, c)),
                        None => None,
                    }
                };
                match step {
                    None => None,
                    Some((k2, v2, c)) => if n == 0 {
                        None
                    } else if n + c >= limit {
                        Some((k2, v2, (n + c) as nat))
                    } else {
                        match entry_fields(
                            k2,
                            v2,
                            s.subrange((n + c) as int, s.len() as int),
                            (limit - n - c) as nat,
                        ) {
                            Some((k3, v3, u)) => Some((k3, v3, (n + c + u) as nat)),
                            None => None,
                        }
                    },
                }
            },
        }
    }
}

/// A map entry at the start of `s`: its key and value, and the bytes read.
/// A length past the input never reads.
pub open spec fn map_entry_at(s: Seq<u8>) -> Option<((Seq<char>, Seq<char>), nat)> {
    match varint_decode(s) {
        None => None,
        Some((len, n)) => if len > s.len() - n {
            None
        } else {
            match entry_fields(seq![], seq![], s.subrange(n as int, s.len() as int), len as nat) {
                Some((k, v, u)) => Some(((k, v), (n + u) as nat)),
                None => None,
            }
        },
    }
}

impl Message for FieldError {
    type Model = FieldErrorModel;

    open spec fn model(&self) -> FieldErrorModel {
        field_error_model(*self)
    }

    open spec fn empty_model() -> FieldErrorModel {
        FieldErrorModel { field: seq![], code: seq![], message: seq![], args: seq![] }
    }

    open spec fn merge_model(m: FieldErrorModel, num: u32, wt: WireType, s: Seq<u8>, depth: nat) -> Option<
        (FieldErrorModel, nat),
    > {
        if num == 1 || num == 2 || num == 3 || num == 4 {
            match string_at(s) {
                Some((x, n)) => Some(
                    (
                        if num == 1 {
                            FieldErrorModel { field: x, ..m }
                        } else if num == 2 {
                            FieldErrorModel { code: x, ..m }
                        } else if num == 3 {
                            FieldErrorModel { message: x, ..m }
                        } else {
                            FieldErrorModel { args: m.args.push(x), ..m }
                        },
                        n,
                    ),
                ),
                None => None,
            }
        } else {
            match skip_len(s, wt) {
                Some(n) => Some((m, n)),
                None => None,
            }
        }
    }

    fn empty() -> (m: FieldError) {
        let m = FieldError { field: String::new(), code: String::new(), message: String::new(), args: Vec::new() };
        assert(texts(m.args@) =~= seq![]);
        m
    }

    open spec fn wire(&self) -> Seq<u8> {
        string_field(1, self.field@) + string_field(2, self.code@) + string_field(3, self.message@)
            + repeated_string_field(4, self.args@)
    }

    fn encode_to(&self, w: &mut Writer) {
        write_string_field(w, 1, &self.field);
        write_string_field(w, 2, &self.code);
        write_string_field(w, 3, &self.message);
        write_repeated_strings(w, 4, &self.args);
    }

    fn merge_field(&mut self, num: u32, wt: WireType, r: &mut Reader<'_>) -> (res: Result<()>) {
        if num == 1 {
            self.field = r.string()?;
        } else if num == 2 {
            self.code = r.string()?;
        } else if num == 3 {
            self.message = r.string()?;
        } else if num == 4 {
            let s = r.string()?;
            let ghost before = self.args@;
            self.args.push(s);
            assert(texts(self.args@) =~= texts(before).push(s@));
        } else {
            r.skip(wt)?;
        }
        Ok(())
    }
}

impl Message for AppError {
    type Model = AppErrorModel;

    open spec fn model(&self) -> AppErrorModel {
        app_error_model(*self)
    }

    open spec fn empty_model() -> AppErrorModel {
        AppErrorModel { code: seq![], message: seq![], args: seq![], details: seq![], metadata: seq![] }
    }

    open spec fn merge_model(m: AppErrorModel, num: u32, wt: WireType, s: Seq<u8>, depth: nat) -> Option<
        (AppErrorModel, nat),
    > {
        if num == 1 || num == 2 || num == 3 {
            match string_at(s) {
                Some((x, n)) => Some(
                    (
                        if num == 1 {
                            AppErrorModel { code: x, ..m }
                        } else if num == 2 {
                            AppErrorModel { message: x, ..m }
                        } else {
                            AppErrorModel { args: m.args.push(x), ..m }
                        },
                        n,
                    ),
                ),
                None => None,
            }
        } else if num == 4 {
            match nested_at::<FieldError>(s, depth) {
                Some((v, n)) => Some((AppErrorModel { details: m.details.push(v), ..m }, n)),
                None => None,
            }
        } else if num == 5 {
            match map_entry_at(s) {
                Some(((k, v), n)) => Some(
                    (AppErrorModel { metadata: meta_set(m.metadata, k, v), ..m }, n),
                ),
                None => None,
            }
        } else {
            match skip_len(s, wt) {
                Some(n) => Some((m, n)),
                None => None,
            }
        }
    }

    fn empty() -> (m: AppError) {
        let m = AppError {
            code: String::new(),
            message: String::new(),
            args: Vec::new(),
            details: Vec::new(),
            metadata: Vec::new(),
        };
        assert(texts(m.args@) =~= seq![]);
        assert(field_error_models(m.details@) =~= seq![]);
        assert(pairs(m.metadata@) =~= seq![]);
        m
    }

    open spec fn wire(&self) -> Seq<u8> {
        string_field(1, self.code@) + string_field(2, self.message@) + repeated_string_field(
            3,
            self.args@,
        ) + repeated_field_errors(4, self.details@) + metadata_field(5, self.metadata@)
    }

    fn encode_to(&self, w: &mut Writer) {
        write_string_field(w, 1, &self.code);
        write_string_field(w, 2, &self.message);
        write_repeated_strings(w, 3, &self.args);
        let ghost start = w@;
        let mut i: usize = 0;
        while i < self.details.len()
            invariant
                i <= self.details@.len(),
                w@ == start + repeated_field_errors(4, self.details@.subrange(0, i as int)),
            decreases self.details@.len() - i,
        {
            write_message(w, 4, &self.details[i]);
            proof {
                let sub = self.details@.subrange(0, i + 1);
                assert(sub.drop_last() == self.details@.subrange(0, i as int));
            }
            i = i + 1;
        }
        proof {
            assert(self.details@.subrange(0, self.details@.len() as int) == self.details@);
        }
        let ghost mid = w@;
        let mut j: usize = 0;
        while j < self.metadata.len()
            invariant
                j <= self.metadata@.len(),
                w@ == mid + metadata_field(5, self.metadata@.subrange(0, j as int)),
            decreases self.metadata@.len() - j,
        {
            let mut inner = Writer::new();
            write_string_field(&mut inner, 1, &self.metadata[j].0);
            write_string_field(&mut inner, 2, &self.metadata[j].1);
            let bytes = inner.finish();
            w.tag(5, WireType::LengthDelimited);
            w.bytes(bytes.as_slice());
            proof {
                let sub = self.metadata@.subrange(0, j + 1);
                assert(sub.drop_last() == self.metadata@.subrange(0, j as int));
            }
            j = j + 1;
        }
        proof {
            assert(self.metadata@.subrange(0, self.metadata@.len() as int) == self.metadata@);
        }
    }

    fn merge_field(&mut self, num: u32, wt: WireType, r: &mut Reader<'_>) -> (res: Result<()>)
        decreases MAX_NESTING_DEPTH - old(r).nesting(), 1nat,
    {
        if num == 1 {
            self.code = r.string()?;
        } else if num == 2 {
            self.message = r.string()?;
        } else if num == 3 {
            let s = r.string()?;
            let ghost before = self.args@;
            self.args.push(s);
            assert(texts(self.args@) =~= texts(before).push(s@));
        } else if num == 4 {
            let fe = read_message::<FieldError>(r)?;
            let ghost before = self.details@;
            self.details.push(fe);
            assert(field_error_models(self.details@) =~= field_error_models(before).push(
                field_error_model(fe),
            ));
        } else if num == 5 {
            let (k, v) = read_map_entry(r)?;
            let ghost before = self.metadata@;
            set_metadata(&mut self.metadata, k, v);
            proof {
                lemma_meta_set(before, k@, v@, self.metadata@);
            }
        } else {
            r.skip(wt)?;
        }
        Ok(())
    }
}

proof fn lemma_key_index(ms: Seq<(Seq<char>, Seq<char>)>, k: Seq<char>, i: int, t: int)
    requires
        0 <= i,
    ensures
        (forall|j: int| i <= j < ms.len() ==> ms[j].0 != k) ==> key_index(ms, k, i) is None,
        (i <= t < ms.len() && ms[t].0 == k && forall|j: int| i <= j < t ==> ms[j].0 != k)
            ==> key_index(ms, k, i) == Some(t),
    decreases ms.len() - i,
{
    if i < ms.len() {
        lemma_key_index(ms, k, i + 1, t);
    }
}

/// Setting a metadata key, as the codec sees it.
proof fn lemma_meta_set(
    before: Seq<(String, String)>,
    k: Seq<char>,
    v: Seq<char>,
    after: Seq<(String, String)>,
)
    requires
        metadata_set(before, k, v, after),
    ensures
        pairs(after) == meta_set(pairs(before), k, v),
{
    let pb = pairs(before);
    if forall|j: int| 0 <= j < before.len() ==> before[j].0@ != k {
        lemma_key_index(pb, k, 0, 0);
        assert(pairs(after) =~= pb.push((k, v))) by {
            assert forall|j: int| 0 <= j < before.len() implies pairs(after)[j] == pb[j] by {
                assert(after[j] == after.drop_last()[j]);
            }
        }
    } else {
        let i = choose|i: int|
            0 <= i < before.len() && before[i].0@ == k && (forall|j: int|
                0 <= j < i ==> before[j].0@ != k) && after.len() == before.len() && (forall|j: int|
                0 <= j < before.len() && j != i ==> after[j] == before[j]) && after[i].0@ == k
                && after[i].1@ == v;
        lemma_key_index(pb, k, 0, i);
        assert(pairs(after) =~= pb.update(i, (k, v)));
    }
}

/// Read one `map<string, string>` entry: a varint length, then key = 1 and
/// value = 2 fields until the reader reaches the announced end; the last
/// field may run past it. A length past the input reads fields until one
/// fails.
#[verifier::rlimit(40)]
fn read_map_entry(r: &mut Reader<'_>) -> (res: Result<(String, String)>)
    ensures
        final(r).input() == old(r).input(),
        final(r).position() >= old(r).position(),
        final(r).nesting() == old(r).nesting(),
        match map_entry_at(old(r).rest()) {
            Some(((k, v), c)) => res matches Ok((ks, vs)) && ks@ == k && vs@ == v
                && final(r).position() == old(r).position() + c,
            None => res is Err,
        },
{
    let ghost s0 = r.rest();
    let ghost p0 = r.position();
    let len = r.varint()?;
    let p = r.pos();
    let n = r.data().len();
    let mut k = String::new();
    let mut v = String::new();
    if len > (n - p) as u64 {
        assert(map_entry_at(s0) is None);
        loop
            invariant
                r.input() == old(r).input(),
                r.nesting() == old(r).nesting(),
                r.position() >= old(r).position(),
                s0 == old(r).rest(),
                map_entry_at(s0) is None,
            decreases r.input().len() - r.position(),
        {
            let ghost s = r.rest();
            let ghost before = r.position();
            let (num, ewt) = r.tag()?;
            proof {
                crate::pb::codec::lemma_varint_scan_progress(s, 0);
            }
            assert(r.position() > before);
            if num == 1 {
                k = r.string()?;
            } else if num == 2 {
                v = r.string()?;
            } else {
                r.skip(ewt)?;
            }
            let _ = r.pos();
        }
    }
    let end = p + len as usize;
    let ghost nv = varint_decode(s0).unwrap().1;
    let ghost goal = entry_fields(seq![], seq![], r.rest(), len as nat);
    proof {
        assert(r.rest() =~= s0.subrange(nv as int, s0.len() as int));
        assert(k@ =~= Seq::<char>::empty());
        assert(v@ =~= Seq::<char>::empty());
    }
    assert(map_entry_at(s0) == match goal {
        Some((k3, v3, u)) => Some(((k3, v3), (nv + u) as nat)),
        None => None,
    });
    while r.pos() < end
        invariant
            r.input() == old(r).input(),
            r.nesting() == old(r).nesting(),
            r.position() >= old(r).position(),
            s0 == old(r).rest(),
            p0 == old(r).position(),
            p == p0 + nv,
            map_entry_at(s0) == match goal {
                Some((k3, v3, u)) => Some(((k3, v3), (nv + u) as nat)),
                None => None,
            },
            p <= r.position(),
            end <= r.input().len(),
            r.position() <= end ==> match entry_fields(
                k@,
                v@,
                r.rest(),
                (end - r.position()) as nat,
            ) {
                Some((k3, v3, u)) => goal == Some((k3, v3, (r.position() - p + u) as nat)),
                None => goal is None,
            },
            r.position() > end ==> goal == Some((k@, v@, (r.position() - p) as nat)),
        decreases r.input().len() - r.position(),
    {
        let ghost before = r.position();
        let ghost s = r.rest();
        let ghost k0 = k@;
        let ghost v0 = v@;
        let (num, ewt) = r.tag()?;
        let _ = r.pos();
        proof {
            crate::pb::codec::lemma_varint_scan_progress(s, 0);
            assert(r.rest() =~= s.subrange(varint_decode(s).unwrap().1 as int, s.len() as int));
        }
        if num == 1 {
            k = r.string()?;
        } else if num == 2 {
            v = r.string()?;
        } else {
            r.skip(ewt)?;
        }
        let _ = r.pos();
        proof {
            let tn = varint_decode(s).unwrap().1;
            let c = (r.position() - before - tn) as nat;
            assert(r.rest() =~= s.subrange((tn + c) as int, s.len() as int));
        }
    }
    proof {
        if r.position() == end {
            assert(entry_fields(k@, v@, r.rest(), 0) == Some((k@, v@, 0nat)));
        }
    }
    Ok((k, v))
}

impl Message for Envelope {
    type Model = EnvelopeModel;

    open spec fn model(&self) -> EnvelopeModel {
        EnvelopeModel {
            status: self.status,
            transport_error: self.transport_error@,
            data: self.data@,
            error: match self.error {
                Some(e) => Some(app_error_model(e)),
                None => None,
            },
        }
    }

    open spec fn empty_model() -> EnvelopeModel {
        EnvelopeModel { status: 0, transport_error: seq![], data: seq![], error: None }
    }

    open spec fn merge_model(m: EnvelopeModel, num: u32, wt: WireType, s: Seq<u8>, depth: nat) -> Option<
        (EnvelopeModel, nat),
    > {
        if num == 1 {
            match varint_decode(s) {
                Some((x, n)) => Some((EnvelopeModel { status: x as i32, ..m }, n)),
                None => None,
            }
        } else if num == 2 {
            match string_at(s) {
                Some((x, n)) => Some((EnvelopeModel { transport_error: x, ..m }, n)),
                None => None,
            }
        } else if num == 3 {
            match length_delimited_decode(s) {
                Some((b, n)) => Some((EnvelopeModel { data: b, ..m }, n)),
                None => None,
            }
        } else if num == 4 {
            match nested_at::<AppError>(s, depth) {
                Some((v, n)) => Some((EnvelopeModel { error: Some(v), ..m }, n)),
                None => None,
            }
        } else {
            match skip_len(s, wt) {
                Some(n) => Some((m, n)),
                None => None,
            }
        }
    }

    fn empty() -> (m: Envelope) {
        Envelope { status: 0, transport_error: String::new(), data: Vec::new(), error: None }
    }

    open spec fn wire(&self) -> Seq<u8> {
        int32_field(1, self.status) + string_field(2, self.transport_error@) + bytes_field(
            3,
            self.data@,
        ) + match self.error {
            Some(e) => delimited_field(4, e.wire()),
            None => Seq::empty(),
        }
    }

    fn encode_to(&self, w: &mut Writer) {
        write_int32_field(w, 1, self.status);
        write_string_field(w, 2, &self.transport_error);
        write_bytes_field(w, 3, &self.data);
        let ghost mid = w@;
        match &self.error {
            Some(err) => write_message(w, 4, err),
            None => {},
        }
        proof {
            assert(w@ == mid + match self.error {
                Some(e) => delimited_field(4, e.wire()),
                None => Seq::<u8>::empty(),
            });
        }
    }

    fn merge_field(&mut self, num: u32, wt: WireType, r: &mut Reader<'_>) -> (res: Result<()>)
        decreases MAX_NESTING_DEPTH - old(r).nesting(), 1nat,
    {
        if num == 1 {
            let v = r.varint()?;
            self.status = #[verifier::truncate] (v as i32);
        } else if num == 2 {
            self.transport_error = r.string()?;
        } else if num == 3 {
            self.data = r.bytes()?;
        } else if num == 4 {
            let e = read_message::<AppError>(r)?;
            self.error = Some(e);
        } else {
            r.skip(wt)?;
        }
        Ok(())
    }
}

// ---------------------------------------------------------------- reading back what was written

/// A string written with its length prefix reads back as its text.
pub proof fn lemma_string_at(x: Seq<char>, rest: Seq<u8>)
    requires
        encode_utf8(x).len() <= u64::MAX,
    ensures
        string_at(length_delimited(encode_utf8(x)) + rest) == Some(
            (x, length_delimited(encode_utf8(x)).len()),
        ),
{
    lemma_length_delimited_round_trip(encode_utf8(x), rest);
    encode_utf8_valid_utf8(x);
    encode_utf8_decode_utf8(x);
}

/// A proto3 string field as one step of decoding: nothing when the text is
/// empty, else the merge of its value.
proof fn lemma_string_step<M: Message>(
    m: M::Model,
    m2: M::Model,
    num: u32,
    x: Seq<char>,
    rest: Seq<u8>,
    limit: nat,
    depth: nat,
)
    requires
        1 <= num <= 0x1fff_ffff,
        x.len() == 0 ==> m2 == m,
        x.len() > 0 ==> M::merge_model(
            m,
            num,
            WireType::LengthDelimited,
            length_delimited(encode_utf8(x)) + rest,
            depth,
        ) == Some((m2, length_delimited(encode_utf8(x)).len())),
    ensures
        decode_until::<M>(m, string_field(num, x) + rest, string_field(num, x).len() + limit, depth)
            == decode_until::<M>(m2, rest, limit, depth),
{
    if x.len() == 0 {
        assert(string_field(num, x) + rest =~= rest);
    } else {
        lemma_decode_field::<M>(
            m,
            num,
            WireType::LengthDelimited,
            length_delimited(encode_utf8(x)),
            rest,
            limit,
            depth,
            m2,
        );
    }
}

/// The `args` of a field error read back in order after those already read.
proof fn lemma_field_error_args(
    m: FieldErrorModel,
    items: Seq<String>,
    rest: Seq<u8>,
    limit: nat,
    depth: nat,
)
    requires
        repeated_string_field(4, items).len() <= u64::MAX,
    ensures
        decode_until::<FieldError>(
            m,
            repeated_string_field(4, items) + rest,
            repeated_string_field(4, items).len() + limit,
            depth,
        ) == decode_until::<FieldError>(
            FieldErrorModel { args: m.args + texts(items), ..m },
            rest,
            limit,
            depth,
        ),
    decreases items.len(),
{
    if items.len() == 0 {
        assert(repeated_string_field(4, items) + rest =~= rest);
        assert(m.args + texts(items) =~= m.args);
    } else {
        let init = items.drop_last();
        let x = items.last()@;
        let ld = length_delimited(encode_utf8(x));
        let d = delimited_field(4, encode_utf8(x));
        let r0 = repeated_string_field(4, init);
        assert(r0 + d + rest =~= r0 + (d + rest));
        lemma_field_error_args(m, init, d + rest, d.len() + limit, depth);
        let m1 = FieldErrorModel { args: m.args + texts(init), ..m };
        lemma_string_at(x, rest);
        let m2 = FieldErrorModel { args: m1.args.push(x), ..m1 };
        lemma_decode_field::<FieldError>(m1, 4, WireType::LengthDelimited, ld, rest, limit, depth, m2);
        assert(m1.args.push(x) =~= m.args + texts(items));
    }
}

/// A field error's fields, with anything after them, decode to its model.
proof fn lemma_field_error_decodes(fe: FieldError, rest: Seq<u8>, depth: nat)
    requires
        fe.wire().len() <= u64::MAX,
    ensures
        decode_until::<FieldError>(FieldError::empty_model(), fe.wire() + rest, fe.wire().len(), depth)
            == Some(field_error_model(fe)),
{
    let a = string_field(1, fe.field@);
    let b = string_field(2, fe.code@);
    let c = string_field(3, fe.message@);
    let r = repeated_string_field(4, fe.args@);
    assert(fe.wire() + rest =~= a + (b + (c + (r + rest))));
    let m0 = FieldError::empty_model();
    let m1 = FieldErrorModel { field: fe.field@, ..m0 };
    let m2 = FieldErrorModel { code: fe.code@, ..m1 };
    let m3 = FieldErrorModel { message: fe.message@, ..m2 };
    lemma_string_at(fe.field@, b + (c + (r + rest)));
    lemma_string_at(fe.code@, c + (r + rest));
    lemma_string_at(fe.message@, r + rest);
    if fe.field@.len() == 0 {
        assert(fe.field@ =~= seq![]);
    }
    if fe.code@.len() == 0 {
        assert(fe.code@ =~= seq![]);
    }
    if fe.message@.len() == 0 {
        assert(fe.message@ =~= seq![]);
    }
    lemma_string_step::<FieldError>(m0, m1, 1, fe.field@, b + (c + (r + rest)), b.len() + c.len() + r.len(), depth);
    lemma_string_step::<FieldError>(m1, m2, 2, fe.code@, c + (r + rest), c.len() + r.len(), depth);
    lemma_string_step::<FieldError>(m2, m3, 3, fe.message@, r + rest, r.len(), depth);
    lemma_field_error_args(m3, fe.args@, rest, 0, depth);
    lemma_decode_done::<FieldError>(FieldErrorModel { args: m3.args + texts(fe.args@), ..m3 }, rest, depth);
    assert(m3.args + texts(fe.args@) =~= texts(fe.args@));
}

/// The `args` of an application error read back in order after those
/// already read.
proof fn lemma_app_error_args(m: AppErrorModel, items: Seq<String>, rest: Seq<u8>, limit: nat, depth: nat)
    requires
        repeated_string_field(3, items).len() <= u64::MAX,
    ensures
        decode_until::<AppError>(
            m,
            repeated_string_field(3, items) + rest,
            repeated_string_field(3, items).len() + limit,
            depth,
        ) == decode_until::<AppError>(
            AppErrorModel { args: m.args + texts(items), ..m },
            rest,
            limit,
            depth,
        ),
    decreases items.len(),
{
    if items.len() == 0 {
        assert(repeated_string_field(3, items) + rest =~= rest);
        assert(m.args + texts(items) =~= m.args);
    } else {
        let init = items.drop_last();
        let x = items.last()@;
        let ld = length_delimited(encode_utf8(x));
        let d = delimited_field(3, encode_utf8(x));
        let r0 = repeated_string_field(3, init);
        assert(r0 + d + rest =~= r0 + (d + rest));
        lemma_app_error_args(m, init, d + rest, d.len() + limit, depth);
        let m1 = AppErrorModel { args: m.args + texts(init), ..m };
        lemma_string_at(x, rest);
        let m2 = AppErrorModel { args: m1.args.push(x), ..m1 };
        lemma_decode_field::<AppError>(m1, 3, WireType::LengthDelimited, ld, rest, limit, depth, m2);
        assert(m1.args.push(x) =~= m.args + texts(items));
    }
}

/// The `details` of an application error read back in order after those
/// already read.
proof fn lemma_app_error_details(
    m: AppErrorModel,
    items: Seq<FieldError>,
    rest: Seq<u8>,
    limit: nat,
    depth: nat,
)
    requires
        repeated_field_errors(4, items).len() <= u64::MAX,
        depth < MAX_NESTING_DEPTH,
    ensures
        decode_until::<AppError>(
            m,
            repeated_field_errors(4, items) + rest,
            repeated_field_errors(4, items).len() + limit,
            depth,
        ) == decode_until::<AppError>(
            AppErrorModel { details: m.details + field_error_models(items), ..m },
            rest,
            limit,
            depth,
        ),
    decreases items.len(),
{
    if items.len() == 0 {
        assert(repeated_field_errors(4, items) + rest =~= rest);
        assert(m.details + field_error_models(items) =~= m.details);
    } else {
        let init = items.drop_last();
        let fe = items.last();
        let ld = length_delimited(fe.wire());
        let d = delimited_field(4, fe.wire());
        let r0 = repeated_field_errors(4, init);
        assert(r0 + d + rest =~= r0 + (d + rest));
        lemma_app_error_details(m, init, d + rest, d.len() + limit, depth);
        let m1 = AppErrorModel { details: m.details + field_error_models(init), ..m };
        lemma_field_error_decodes(fe, rest, depth + 1);
        lemma_nested_at::<FieldError>(fe.wire(), rest, depth, field_error_model(fe));
        let m2 = AppErrorModel { details: m1.details.push(field_error_model(fe)), ..m1 };
        lemma_decode_field::<AppError>(m1, 4, WireType::LengthDelimited, ld, rest, limit, depth, m2);
        assert(m1.details.push(field_error_model(fe)) =~= m.details + field_error_models(items));
    }
}

/// A string field `num` of a map entry's body: its tag reads, its value
/// reads as the text, and read with the bytes it takes as the limit it sets
/// the key (1) or the value (2) and ends the body.
proof fn lemma_entry_field(num: u32, k: Seq<char>, v: Seq<char>, x: Seq<char>, rest: Seq<u8>)
    requires
        num == 1 || num == 2,
        x.len() > 0,
        string_field(num, x).len() <= u64::MAX,
    ensures
        tag_at(string_field(num, x) + rest) == Some(
            (num, WireType::LengthDelimited, varint_bytes(tag_value(num, WireType::LengthDelimited)).len()),
        ),
        string_at(
            (string_field(num, x) + rest).subrange(
                varint_bytes(tag_value(num, WireType::LengthDelimited)).len() as int,
                (string_field(num, x) + rest).len() as int,
            ),
        ) == Some((x, length_delimited(encode_utf8(x)).len())),
        varint_bytes(tag_value(num, WireType::LengthDelimited)).len() > 0,
        varint_bytes(tag_value(num, WireType::LengthDelimited)).len() + length_delimited(
            encode_utf8(x),
        ).len() == string_field(num, x).len(),
        (string_field(num, x) + rest).subrange(
            string_field(num, x).len() as int,
            (string_field(num, x) + rest).len() as int,
        ) == rest,
        entry_fields(k, v, string_field(num, x) + rest, string_field(num, x).len()) == Some(
            (
                if num == 1 {
                    x
                } else {
                    k
                },
                if num == 1 {
                    v
                } else {
                    x
                },
                string_field(num, x).len(),
            ),
        ),
{
    let f = string_field(num, x);
    let t = varint_bytes(tag_value(num, WireType::LengthDelimited));
    let l = length_delimited(encode_utf8(x));
    let s = f + rest;
    lemma_tag_round_trip(num, WireType::LengthDelimited, l + rest);
    lemma_varint_bytes_shape(tag_value(num, WireType::LengthDelimited));
    assert(s =~= t + (l + rest));
    assert(tag_at(s) == Some((num, WireType::LengthDelimited, t.len())));
    assert(s.subrange(t.len() as int, s.len() as int) =~= l + rest);
    assert(s.subrange(f.len() as int, s.len() as int) =~= rest);
    lemma_string_at(x, rest);
}

/// The body of a map entry, read with its length as the limit, gives its key
/// and value.
proof fn lemma_entry_body(k: Seq<char>, v: Seq<char>, rest: Seq<u8>)
    requires
        map_entry_body(k, v).len() <= u64::MAX,
    ensures
        entry_fields(seq![], seq![], map_entry_body(k, v) + rest, map_entry_body(k, v).len()) == Some(
            (k, v, map_entry_body(k, v).len()),
        ),
{
    let a = string_field(1, k);
    let b = string_field(2, v);
    let body = map_entry_body(k, v);
    assert(body + rest =~= a + (b + rest));
    if k.len() == 0 {
        assert(k =~= seq![]);
        assert(a + (b + rest) =~= b + rest);
        if v.len() == 0 {
            assert(v =~= seq![]);
        } else {
            lemma_entry_field(2, seq![], seq![], v, rest);
        }
    } else if v.len() == 0 {
        assert(v =~= seq![]);
        assert(b + rest =~= rest);
        lemma_entry_field(1, seq![], seq![], k, rest);
    } else {
        lemma_entry_field(2, k, seq![], v, rest);
        lemma_entry_field(1, seq![], seq![], k, b + rest);
    }
}

/// A map entry written as its two string fields reads back as its key and
/// value.
proof fn lemma_map_entry_at(k: Seq<char>, v: Seq<char>, rest: Seq<u8>)
    requires
        map_entry_body(k, v).len() <= u64::MAX,
    ensures
        map_entry_at(length_delimited(map_entry_body(k, v)) + rest) == Some(
            ((k, v), length_delimited(map_entry_body(k, v)).len()),
        ),
{
    let body = map_entry_body(k, v);
    let p = varint_bytes(body.len() as u64);
    let s = length_delimited(body) + rest;
    assert(s =~= p + (body + rest));
    lemma_varint_round_trip(body.len() as u64, body + rest);
    assert(s.subrange(p.len() as int, s.len() as int) =~= body + rest);
    lemma_entry_body(k, v, rest);
}

/// The metadata entries of an application error, with keys that differ,
/// read back in order into metadata that holds none yet.
proof fn lemma_app_error_metadata(
    m: AppErrorModel,
    items: Seq<(String, String)>,
    rest: Seq<u8>,
    limit: nat,
    depth: nat,
)
    requires
        metadata_field(5, items).len() <= u64::MAX,
        keys_unique(items),
        m.metadata == Seq::<(Seq<char>, Seq<char>)>::empty(),
    ensures
        decode_until::<AppError>(
            m,
            metadata_field(5, items) + rest,
            metadata_field(5, items).len() + limit,
            depth,
        ) == decode_until::<AppError>(AppErrorModel { metadata: pairs(items), ..m }, rest, limit, depth),
    decreases items.len(),
{
    if items.len() == 0 {
        assert(metadata_field(5, items) + rest =~= rest);
        assert(pairs(items) =~= m.metadata);
    } else {
        let init = items.drop_last();
        let (k, v) = items.last();
        let body = map_entry_body(k@, v@);
        let ld = length_delimited(body);
        let d = delimited_field(5, body);
        let r0 = metadata_field(5, init);
        assert(r0 + d + rest =~= r0 + (d + rest));
        assert(keys_unique(init));
        lemma_app_error_metadata(m, init, d + rest, d.len() + limit, depth);
        let m1 = AppErrorModel { metadata: pairs(init), ..m };
        lemma_map_entry_at(k@, v@, rest);
        assert forall|j: int| 0 <= j < pairs(init).len() implies pairs(init)[j].0 != k@ by {
            assert(items[j] == init[j]);
        }
        lemma_key_index(pairs(init), k@, 0, 0);
        let m2 = AppErrorModel { metadata: pairs(init).push((k@, v@)), ..m1 };
        lemma_decode_field::<AppError>(m1, 5, WireType::LengthDelimited, ld, rest, limit, depth, m2);
        assert(pairs(init).push((k@, v@)) =~= pairs(items));
    }
}

/// An application error's fields, with anything after them, decode to its
/// model when no metadata key occurs twice.
/// Five pieces and what follows them, regrouped from the right.
proof fn lemma_regroup(a: Seq<u8>, b: Seq<u8>, c: Seq<u8>, d: Seq<u8>, e: Seq<u8>, rest: Seq<u8>)
    ensures
        a + b + c + d + e + rest == a + (b + (c + (d + (e + rest)))),
{
    assert(a + b + c + d + e + rest =~= a + (b + (c + (d + (e + rest)))));
}

/// The repeated fields of an application error, after its code and message,
/// read back into a model that holds none of them yet.
proof fn lemma_app_error_lists(m: AppErrorModel, e: AppError, rest: Seq<u8>, depth: nat)
    requires
        repeated_string_field(3, e.args@).len() + repeated_field_errors(4, e.details@).len()
            + metadata_field(5, e.metadata@).len() <= u64::MAX,
        keys_unique(e.metadata@),
        depth < MAX_NESTING_DEPTH,
        m.args == Seq::<Seq<char>>::empty(),
        m.details == Seq::<FieldErrorModel>::empty(),
        m.metadata == Seq::<(Seq<char>, Seq<char>)>::empty(),
    ensures
        decode_until::<AppError>(
            m,
            repeated_string_field(3, e.args@) + (repeated_field_errors(4, e.details@) + (
            metadata_field(5, e.metadata@) + rest)),
            repeated_string_field(3, e.args@).len() + repeated_field_errors(4, e.details@).len()
                + metadata_field(5, e.metadata@).len(),
            depth,
        ) == Some(
            AppErrorModel {
                args: texts(e.args@),
                details: field_error_models(e.details@),
                metadata: pairs(e.metadata@),
                ..m
            },
        ),
{
    let r3 = repeated_string_field(3, e.args@);
    let r4 = repeated_field_errors(4, e.details@);
    let r5 = metadata_field(5, e.metadata@);
    lemma_app_error_args(m, e.args@, r4 + (r5 + rest), r4.len() + r5.len(), depth);
    let m3 = AppErrorModel { args: m.args + texts(e.args@), ..m };
    assert(m.args + texts(e.args@) =~= texts(e.args@));
    lemma_app_error_details(m3, e.details@, r5 + rest, r5.len(), depth);
    let m4 = AppErrorModel { details: m3.details + field_error_models(e.details@), ..m3 };
    assert(m3.details + field_error_models(e.details@) =~= field_error_models(e.details@));
    lemma_app_error_metadata(m4, e.metadata@, rest, 0, depth);
    lemma_decode_done::<AppError>(AppErrorModel { metadata: pairs(e.metadata@), ..m4 }, rest, depth);
}

/// An application error's fields, with anything after them, decode to its
/// model when no metadata key occurs twice.
proof fn lemma_app_error_decodes(e: AppError, rest: Seq<u8>, depth: nat)
    requires
        e.wire().len() <= u64::MAX,
        keys_unique(e.metadata@),
        depth < MAX_NESTING_DEPTH,
    ensures
        decode_until::<AppError>(AppError::empty_model(), e.wire() + rest, e.wire().len(), depth)
            == Some(app_error_model(e)),
{
    let a = string_field(1, e.code@);
    let b = string_field(2, e.message@);
    let r3 = repeated_string_field(3, e.args@);
    let r4 = repeated_field_errors(4, e.details@);
    let r5 = metadata_field(5, e.metadata@);
    let lists = r3 + (r4 + (r5 + rest));
    lemma_regroup(a, b, r3, r4, r5, rest);
    let m0 = AppError::empty_model();
    let m1 = AppErrorModel { code: e.code@, ..m0 };
    let m2 = AppErrorModel { message: e.message@, ..m1 };
    lemma_string_at(e.code@, b + lists);
    lemma_string_at(e.message@, lists);
    if e.code@.len() == 0 {
        assert(e.code@ =~= seq![]);
    }
    if e.message@.len() == 0 {
        assert(e.message@ =~= seq![]);
    }
    lemma_string_step::<AppError>(m0, m1, 1, e.code@, b + lists, b.len() + r3.len() + r4.len() + r5.len(), depth);
    lemma_string_step::<AppError>(m1, m2, 2, e.message@, lists, r3.len() + r4.len() + r5.len(), depth);
    lemma_app_error_lists(m2, e, rest, depth);
}

/// Reading back what `marshal` writes of a field error gives the field error:
/// its fields decode, from an empty one, to its model.
pub proof fn lemma_field_error_round_trip(fe: FieldError)
    requires
        fe.wire().len() <= u64::MAX,
    ensures
        decode_until::<FieldError>(FieldError::empty_model(), fe.wire(), fe.wire().len(), 0) == Some(
            fe.model(),
        ),
{
    lemma_field_error_decodes(fe, seq![], 0);
    assert(fe.wire() + seq![] =~= fe.wire());
}

/// Reading back what `marshal` writes of an application error gives the
/// error: its fields decode, from an empty one, to its model, provided no
/// metadata key occurs twice.
pub proof fn lemma_app_error_round_trip(e: AppError)
    requires
        e.wire().len() <= u64::MAX,
        keys_unique(e.metadata@),
    ensures
        decode_until::<AppError>(AppError::empty_model(), e.wire(), e.wire().len(), 0) == Some(
            e.model(),
        ),
{
    lemma_app_error_decodes(e, seq![], 0);
    assert(e.wire() + seq![] =~= e.wire());
}

/// Reading back what `marshal` writes of an envelope gives the envelope: its
/// fields decode, from an empty envelope, to its model, provided no metadata
/// key of its error occurs twice.
#[verifier::rlimit(40)]
pub proof fn lemma_envelope_round_trip(e: Envelope)
    requires
        e.wire().len() <= u64::MAX,
        e.error matches Some(err) ==> keys_unique(err.metadata@),
    ensures
        decode_until::<Envelope>(Envelope::empty_model(), e.wire(), e.wire().len(), 0) == Some(
            e.model(),
        ),
{
    let i = int32_field(1, e.status);
    let t = string_field(2, e.transport_error@);
    let b = bytes_field(3, e.data@);
    let x = match e.error {
        Some(err) => delimited_field(4, err.wire()),
        None => Seq::<u8>::empty(),
    };
    assert(e.wire() =~= i + (t + (b + x)));
    let m0 = Envelope::empty_model();
    let m1 = EnvelopeModel { status: e.status, ..m0 };
    let m2 = EnvelopeModel { transport_error: e.transport_error@, ..m1 };
    let m3 = EnvelopeModel { data: e.data@, ..m2 };
    let tail = t + (b + x);
    lemma_decode_done::<Envelope>(m3, x, 0);
    lemma_decode_done::<Envelope>(e.model(), seq![], 0);
    // status
    if e.status == 0 {
        assert(i + tail =~= tail);
    } else {
        let u = e.status as i64 as u64;
        lemma_varint_round_trip(u, tail);
        let st = e.status;
        assert((st as i64 as u64) as i32 == st) by (bit_vector);
        lemma_decode_field::<Envelope>(m0, 1, WireType::Varint, varint_bytes(u), tail, tail.len(), 0, m1);
    }
    // transport error
    lemma_string_at(e.transport_error@, b + x);
    if e.transport_error@.len() == 0 {
        assert(e.transport_error@ =~= seq![]);
    }
    lemma_string_step::<Envelope>(m1, m2, 2, e.transport_error@, b + x, (b + x).len(), 0);
    // data
    if e.data@.len() == 0 {
        assert(e.data@ =~= seq![]);
        assert(b + x =~= x);
    } else {
        lemma_length_delimited_round_trip(e.data@, x);
        lemma_decode_field::<Envelope>(m2, 3, WireType::LengthDelimited, length_delimited(e.data@), x, x.len(), 0, m3);
    }
    // error
    match e.error {
        Some(err) => {
            lemma_app_error_decodes(err, seq![], 1);
            assert(err.wire() + seq![] =~= err.wire());
            lemma_nested_at::<AppError>(err.wire(), seq![], 0, app_error_model(err));
            assert(length_delimited(err.wire()) + seq![] =~= length_delimited(err.wire()));
            lemma_decode_field::<Envelope>(
                m3,
                4,
                WireType::LengthDelimited,
                length_delimited(err.wire()),
                seq![],
                0,
                0,
                e.model(),
            );
            assert(x + seq![] =~= x);
        },
        None => {},
    }
}


// ---------------------------------------------------------------- field numbers
proof fn lemma_envelope_tags()
    ensures
        varint_bytes(tag_value(1, WireType::Varint)) == seq![0x08u8],
        varint_bytes(tag_value(2, WireType::LengthDelimited)) == seq![0x12u8],
        varint_bytes(tag_value(3, WireType::LengthDelimited)) == seq![0x1au8],
        varint_bytes(tag_value(4, WireType::LengthDelimited)) == seq![0x22u8],
{
    assert(((1u64 << 3u64) | 0u64) == 8u64 && ((2u64 << 3u64) | 2u64) == 18u64 && ((3u64 << 3u64)
        | 2u64) == 26u64 && ((4u64 << 3u64) | 2u64) == 34u64) by (bit_vector);
    assert(tag_value(1, WireType::Varint) == 8);
    assert(tag_value(2, WireType::LengthDelimited) == 18);
    assert(tag_value(3, WireType::LengthDelimited) == 26);
    assert(tag_value(4, WireType::LengthDelimited) == 34);
}

/// The envelope's wire form follows its schema: `status` is field 1,
/// `transport_error` field 2, `data` field 3 and `error` field 4. Each field
/// that is set goes out, in that order, as its one-byte tag (`0x08`, `0x12`,
/// `0x1a`, `0x22`) followed by its value: the varint of the status, or the
/// varint length and then the bytes of the text, of the data or of the
/// encoded error; a field left at its default is not written.
pub proof fn lemma_envelope_field_numbers(e: Envelope)
    ensures
        e.wire() == (if e.status == 0 {
            Seq::<u8>::empty()
        } else {
            seq![0x08u8] + varint_bytes(e.status as i64 as u64)
        }) + (if e.transport_error@.len() == 0 {
            Seq::<u8>::empty()
        } else {
            seq![0x12u8] + varint_bytes(encode_utf8(e.transport_error@).len() as u64) + encode_utf8(
                e.transport_error@,
            )
        }) + (if e.data@.len() == 0 {
            Seq::<u8>::empty()
        } else {
            seq![0x1au8] + varint_bytes(e.data@.len() as u64) + e.data@
        }) + match e.error {
            Some(err) => seq![0x22u8] + varint_bytes(err.wire().len() as u64) + err.wire(),
            None => Seq::<u8>::empty(),
        },
{
    lemma_envelope_tags();
    let i = int32_field(1, e.status);
    let t = string_field(2, e.transport_error@);
    let b = bytes_field(3, e.data@);
    if e.transport_error@.len() > 0 {
        assert(t =~= seq![0x12u8] + varint_bytes(encode_utf8(e.transport_error@).len() as u64)
            + encode_utf8(e.transport_error@));
    }
    if e.data@.len() > 0 {
        assert(b =~= seq![0x1au8] + varint_bytes(e.data@.len() as u64) + e.data@);
    }
    match e.error {
        Some(err) => {
            assert(delimited_field(4, err.wire()) =~= seq![0x22u8] + varint_bytes(
                err.wire().len() as u64,
            ) + err.wire());
        },
        None => {},
    }
}

/// A transport error alone on the wire, as field 2 (tag `0x12`, the varint
/// length, the UTF-8 bytes), reads back as an envelope that carries exactly
/// that message and nothing else.
pub proof fn lemma_transport_error_reads_back(m: Seq<char>)
    requires
        m.len() > 0,
        encode_utf8(m).len() < u64::MAX,
    ensures
        ({
            let b = seq![0x12u8] + varint_bytes(encode_utf8(m).len() as u64) + encode_utf8(m);
            decode_until::<Envelope>(Envelope::empty_model(), b, b.len(), 0) == Some(
                EnvelopeModel { status: 0, transport_error: m, data: seq![], error: None },
            )
        }),
{
    lemma_envelope_tags();
    let ld = length_delimited(encode_utf8(m));
    lemma_string_at(m, seq![]);
    let m0 = Envelope::empty_model();
    let m1 = EnvelopeModel { transport_error: m, ..m0 };
    assert(ld + Seq::<u8>::empty() =~= ld);
    lemma_decode_field::<Envelope>(m0, 2, WireType::LengthDelimited, ld, seq![], 0, 0, m1);
    lemma_decode_done::<Envelope>(m1, seq![], 0);
    let b = seq![0x12u8] + varint_bytes(encode_utf8(m).len() as u64) + encode_utf8(m);
    assert(varint_bytes(tag_value(2, WireType::LengthDelimited)) + ld + Seq::<u8>::empty() =~= b);
}

} // verus!
