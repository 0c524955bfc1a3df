//! The mathematical model of the protobuf varint and zigzag encodings,
//! and the laws that tie the encoder to the decoder.
use vstd::prelude::*;

verus! {

/// The low `k` bits of `v` (all of `v` once `k` reaches 64).
pub open spec fn low_bits(v: u64, k: u64) -> u64 {
    if k >= 64 {
        v
    } else {
        v & (((1u64 << k) as u64) - 1) as u64
    }
}

/// The bytes of the unsigned LEB128 varint encoding of `v`: seven bits per
/// byte, least significant group first, the high bit set on every byte but
/// the last.
pub open spec fn varint_bytes(v: u64) -> Seq<u8>
    decreases v,
{
    if v < 0x80 {
        seq![v as u8]
    } else {
        proof {
            lemma_shr7_decreases(v);
        }
        seq![(((v & 0x7f) | 0x80) as u8)] + varint_bytes(v >> 7)
    }
}

/// What the varint decoder meets when it scans `s` from byte `i` on: the end
/// of a varint after `n` bytes, a truncated input, or a tenth byte that still
/// has its continuation bit set.
pub enum VarintScan {
    Done(nat),
    Truncated,
    TooLong,
}

pub open spec fn varint_scan(s: Seq<u8>, i: nat) -> VarintScan
    decreases 10 - i,
{
    if i >= s.len() {
        VarintScan::Truncated
    } else if s[i as int] & 0x80 == 0 {
        VarintScan::Done(i + 1)
    } else if i >= 9 {
        VarintScan::TooLong
    } else {
        varint_scan(s, i + 1)
    }
}

/// The value the decoder accumulates from the first `n` bytes of `s`: each
/// byte's low seven bits shifted into place, bits past 64 dropped.
pub open spec fn varint_acc(s: Seq<u8>, n: nat) -> u64
    decreases n,
{
    if n == 0 {
        0
    } else {
        varint_acc(s, (n - 1) as nat) | ((((s[n - 1] & 0x7f) as u64) << ((7 * (n - 1)) as u64)) as u64)
    }
}

/// Decoding of an unsigned varint at the start of `s`: the value and the
/// number of bytes it takes, or `None` when `s` holds no complete varint of
/// at most ten bytes.
pub open spec fn varint_decode(s: Seq<u8>) -> Option<(u64, nat)> {
    match varint_scan(s, 0) {
        VarintScan::Done(n) => Some((varint_acc(s, n), n)),
        _ => None,
    }
}

/// Zigzag mapping of a signed 32-bit integer onto an unsigned one
/// (proto3 `sint32`): 0, -1, 1, -2, … become 0, 1, 2, 3, ….
pub open spec fn zigzag32_spec(v: i32) -> u32 {
    if v >= 0 {
        (2 * v) as u32
    } else {
        (-2 * v - 1) as u32
    }
}

/// The inverse of [`zigzag32_spec`].
pub open spec fn unzigzag32_spec(u: u32) -> i32 {
    if u % 2 == 0 {
        (u / 2) as i32
    } else {
        (-((u + 1) / 2)) as i32
    }
}

/// Zigzag mapping of a signed 64-bit integer (proto3 `sint64`).
pub open spec fn zigzag64_spec(v: i64) -> u64 {
    if v >= 0 {
        (2 * v) as u64
    } else {
        (-2 * v - 1) as u64
    }
}

/// The inverse of [`zigzag64_spec`].
pub open spec fn unzigzag64_spec(u: u64) -> i64 {
    if u % 2 == 0 {
        (u / 2) as i64
    } else {
        (-((u + 1) / 2)) as i64
    }
}

pub proof fn lemma_shr7_decreases(v: u64)
    requires
        v >= 0x80,
    ensures
        v >> 7 < v,
{
    assert(v >= 0x80 ==> v >> 7 < v) by (bit_vector);
}

/// Every varint is between one and ten bytes long, and its last byte is the
/// only one without the continuation bit.
pub proof fn lemma_varint_bytes_shape(v: u64)
    ensures
        1 <= varint_bytes(v).len(),
        forall|j: int|
            0 <= j < varint_bytes(v).len() ==> (#[trigger] varint_bytes(v)[j] & 0x80 == 0 <==> j
                == varint_bytes(v).len() - 1),
        forall|j: int|
            0 <= j < varint_bytes(v).len() ==> #[trigger] varint_bytes(v)[j] & 0x7f == ((v >> (7
                * j) as u64) & 0x7f) as u8,
        (v >> ((7 * (varint_bytes(v).len() - 1)) as u64)) < 0x80,
        v < 0x80 ==> varint_bytes(v).len() == 1,
    decreases v,
{
    if v < 0x80 {
        assert(v < 0x80 ==> (v as u8) & 0x80 == 0) by (bit_vector);
        assert(v < 0x80 ==> (v as u8) & 0x7f == ((v >> 0u64) & 0x7f) as u8) by (bit_vector);
        assert(v >> 0u64 == v) by (bit_vector);
    } else {
        lemma_shr7_decreases(v);
        let w = v >> 7;
        lemma_varint_bytes_shape(w);
        lemma_varint_len_at_most_10(v);
        let b = (((v & 0x7f) | 0x80) as u8);
        let t = varint_bytes(w);
        let s = varint_bytes(v);
        assert(s == seq![b] + t);
        assert(b & 0x80 != 0) by (bit_vector)
            requires b == (((v & 0x7f) | 0x80) as u8);
        assert(b & 0x7f == ((v >> 0u64) & 0x7f) as u8) by (bit_vector)
            requires b == (((v & 0x7f) | 0x80) as u8);
        assert forall|j: int| 0 <= j < s.len() implies #[trigger] s[j] & 0x7f == ((v >> (7 * j) as u64)
            & 0x7f) as u8 by {
            if j == 0 {
            } else {
                assert(s[j] == t[j - 1]);
                let k = (7 * (j - 1)) as u64;
                assert(k <= 56);
                assert(t[j - 1] & 0x7f == ((w >> k) & 0x7f) as u8);
                assert(w == v >> 7 && k <= 56 ==> w >> k == v >> ((k + 7) as u64)) by (bit_vector);
            }
        }
        assert forall|j: int| 0 <= j < s.len() implies (#[trigger] s[j] & 0x80 == 0 <==> j == s.len()
            - 1) by {
            if j > 0 {
                assert(s[j] == t[j - 1]);
            }
        }
        let kt = (7 * (t.len() - 1)) as u64;
        assert(w >> kt < 0x80);
        assert(w == v >> 7 && kt <= 56 ==> w >> kt == v >> ((kt + 7) as u64)) by (bit_vector);
    }
}

/// The encoding takes at most `m` bytes once the value fits in `7 * m` bits.
proof fn lemma_varint_len_bound(v: u64, m: nat)
    requires
        1 <= m <= 9,
        v >> (7 * m) as u64 == 0,
    ensures
        varint_bytes(v).len() <= m,
    decreases v,
{
    if v >= 0x80 {
        lemma_shr7_decreases(v);
        let w = v >> 7;
        let k = (7 * (m - 1)) as u64;
        assert(m >= 2) by {
            if m == 1 {
                assert(v >> 7u64 == 0 ==> v < 0x80) by (bit_vector);
            }
        }
        assert(k + 7 <= 63 && v >> ((k + 7) as u64) == 0 ==> (v >> 7) >> k == 0) by (bit_vector);
        lemma_varint_len_bound(w, (m - 1) as nat);
    }
}

/// Every varint is at most ten bytes long.
pub proof fn lemma_varint_len_at_most_10(v: u64)
    ensures
        varint_bytes(v).len() <= 10,
{
    if v >= 0x80 {
        lemma_shr7_decreases(v);
        assert((v >> 7) >> 63u64 == 0) by (bit_vector);
        lemma_varint_len_bound(v >> 7, 9);
    }
}

proof fn lemma_low_bits_step(v: u64, k: u64)
    requires
        k <= 63,
    ensures
        low_bits(v, k) | ((((v >> k) & 0x7f) << k) as u64) == low_bits(v, (k + 7) as u64),
{
    if k + 7 >= 64 {
        assert(k <= 63 && k + 7 >= 64 ==> (v & (((1u64 << k) as u64) - 1) as u64) | ((((v >> k)
            & 0x7f) << k) as u64) == v) by (bit_vector);
    } else {
        assert(k + 7 < 64 ==> (v & (((1u64 << k) as u64) - 1) as u64) | ((((v >> k) & 0x7f) << k)
            as u64) == v & (((1u64 << ((k + 7) as u64)) as u64) - 1) as u64) by (bit_vector);
    }
}

proof fn lemma_varint_acc_of_encoding(v: u64, s: Seq<u8>, n: nat)
    requires
        n <= varint_bytes(v).len(),
        s.len() >= varint_bytes(v).len(),
        forall|j: int| 0 <= j < varint_bytes(v).len() ==> s[j] == varint_bytes(v)[j],
    ensures
        varint_acc(s, n) == low_bits(v, (7 * n) as u64),
    decreases n,
{
    lemma_varint_bytes_shape(v);
    lemma_varint_len_at_most_10(v);
    if n == 0 {
        assert(low_bits(v, 0) == 0) by {
            assert(v & (((1u64 << 0u64) as u64) - 1) as u64 == 0) by (bit_vector);
        }
    } else {
        lemma_varint_acc_of_encoding(v, s, (n - 1) as nat);
        let k = (7 * (n - 1)) as u64;
        let b = s[n - 1];
        assert(b & 0x7f == ((v >> k) & 0x7f) as u8);
        assert((((b & 0x7f) as u64) << k) as u64 == ((((v >> k) & 0x7f) << k) as u64)) by (
        bit_vector)
            requires b & 0x7f == ((v >> k) & 0x7f) as u8;
        lemma_low_bits_step(v, k);
    }
}

proof fn lemma_varint_scan_of_encoding(v: u64, s: Seq<u8>, i: nat)
    requires
        i < varint_bytes(v).len(),
        s.len() >= varint_bytes(v).len(),
        forall|j: int| 0 <= j < varint_bytes(v).len() ==> s[j] == varint_bytes(v)[j],
    ensures
        varint_scan(s, i) == VarintScan::Done(varint_bytes(v).len()),
    decreases 10 - i,
{
    lemma_varint_bytes_shape(v);
    lemma_varint_len_at_most_10(v);
    let b = varint_bytes(v)[i as int];
    if i + 1 < varint_bytes(v).len() {
        assert(b & 0x80 != 0);
        lemma_varint_scan_of_encoding(v, s, i + 1);
    }
}

/// The varint law: decoding the encoding of `v`, whatever follows it, gives
/// back `v` and consumes exactly the encoding.
pub proof fn lemma_varint_round_trip(v: u64, rest: Seq<u8>)
    ensures
        varint_decode(varint_bytes(v) + rest) == Some((v, varint_bytes(v).len())),
{
    let e = varint_bytes(v);
    let s = e + rest;
    lemma_varint_bytes_shape(v);
    lemma_varint_len_at_most_10(v);
    lemma_varint_scan_of_encoding(v, s, 0);
    lemma_varint_acc_of_encoding(v, s, e.len());
    let k = (7 * e.len()) as u64;
    let k1 = (7 * (e.len() - 1)) as u64;
    assert(v >> k1 < 0x80);
    if k < 64 {
        assert(k1 + 7 == k && k < 64 && v >> k1 < 0x80 ==> v & (((1u64 << k) as u64) - 1) as u64
            == v) by (bit_vector);
    }
}

/// Decoding only looks at the bytes up to the end of the varint: what follows
/// does not change the result.
pub proof fn lemma_varint_decode_prefix(s: Seq<u8>, rest: Seq<u8>)
    requires
        varint_decode(s) is Some,
    ensures
        varint_decode(s + rest) == varint_decode(s),
{
    lemma_varint_scan_prefix(s, rest, 0);
    let n = varint_decode(s).unwrap().1;
    lemma_varint_acc_prefix(s, rest, n);
}

proof fn lemma_varint_scan_prefix(s: Seq<u8>, rest: Seq<u8>, i: nat)
    requires
        i <= 9,
        varint_scan(s, i) is Done,
    ensures
        varint_scan(s + rest, i) == varint_scan(s, i),
        varint_scan(s, i)->Done_0 <= s.len(),
    decreases 10 - i,
{
    if i < s.len() && s[i as int] & 0x80 != 0 && i < 9 {
        lemma_varint_scan_prefix(s, rest, i + 1);
    }
}

proof fn lemma_varint_acc_prefix(s: Seq<u8>, rest: Seq<u8>, n: nat)
    requires
        n <= s.len(),
    ensures
        varint_acc(s + rest, n) == varint_acc(s, n),
    decreases n,
{
    if n > 0 {
        lemma_varint_acc_prefix(s, rest, (n - 1) as nat);
    }
}

/// The zigzag laws: the two mappings are inverse to each other.
pub proof fn lemma_zigzag32_round_trip(v: i32)
    ensures
        unzigzag32_spec(zigzag32_spec(v)) == v,
{
}

pub proof fn lemma_zigzag64_round_trip(v: i64)
    ensures
        unzigzag64_spec(zigzag64_spec(v)) == v,
{
}

} // verus!
