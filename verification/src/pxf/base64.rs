//! Standard base64 as PXF bytes literals use it: validation of padded and
//! unpadded input, decoding, and padded encoding.
use vstd::prelude::*;

use crate::text::push_char;

verus! {

pub open spec fn is_b64_char(c: u8) -> bool {
    (65 <= c <= 90) || (97 <= c <= 122) || (48 <= c <= 57) || c == 43 || c == 47
}

/// The six-bit value of a base64 alphabet byte.
pub open spec fn sextet_of(c: u8) -> u8 {
    if 65 <= c <= 90 {
        (c - 65) as u8
    } else if 97 <= c <= 122 {
        (c - 97 + 26) as u8
    } else if 48 <= c <= 57 {
        (c - 48 + 52) as u8
    } else if c == 43 {
        62
    } else {
        63
    }
}

/// The alphabet byte of a six-bit value.
pub open spec fn b64_char(v: u8) -> u8 {
    if v < 26 {
        (v + 65) as u8
    } else if v < 52 {
        (v - 26 + 97) as u8
    } else if v < 62 {
        (v - 52 + 48) as u8
    } else if v == 62 {
        43
    } else {
        47
    }
}

/// Number of trailing `=` counted as padding (at most two).
pub open spec fn b64_padding(s: Seq<u8>) -> nat {
    if s.len() >= 2 && s[s.len() - 1] == 61 && s[s.len() - 2] == 61 {
        2
    } else if s.len() >= 1 && s[s.len() - 1] == 61 {
        1
    } else {
        0
    }
}

/// Standard (padded) or raw (unpadded) base64: alphabet bytes before the
/// padding; with padding the length is a multiple of four, without it any
/// length but one more than a multiple of four.
pub open spec fn valid_base64(s: Seq<u8>) -> bool {
    s.len() == 0 || ((forall|i: int| 0 <= i < s.len() - b64_padding(s) ==> is_b64_char(#[trigger] s[i]))
        && if b64_padding(s) == 0 {
        s.len() % 4 != 1
    } else {
        s.len() % 4 == 0
    })
}

/// The six-bit values of the alphabet bytes of `s` before its first `=`;
/// other bytes are skipped.
pub open spec fn sextets(s: Seq<u8>) -> Seq<u8>
    decreases s.len(),
{
    if s.len() == 0 || s[0] == 61 {
        Seq::empty()
    } else if is_b64_char(s[0]) {
        seq![sextet_of(s[0])] + sextets(s.drop_first())
    } else {
        sextets(s.drop_first())
    }
}

/// Four sextets as three bytes.
pub open spec fn group_bytes(a: u8, b: u8, c: u8, d: u8) -> Seq<u8> {
    seq![
        ((a << 2) | (b >> 4)) as u8,
        (((b & 15) << 4) | (c >> 2)) as u8,
        (((c & 3) << 6) | d) as u8,
    ]
}

/// Bytes of a sequence of sextets: three per full group of four; a trailing
/// group of two gives one byte, of three two bytes, of one none.
pub open spec fn sextets_to_bytes(v: Seq<u8>) -> Seq<u8>
    decreases v.len(),
{
    if v.len() >= 4 {
        group_bytes(v[0], v[1], v[2], v[3]) + sextets_to_bytes(v.subrange(4, v.len() as int))
    } else if v.len() == 3 {
        group_bytes(v[0], v[1], v[2], 0).subrange(0, 2)
    } else if v.len() == 2 {
        group_bytes(v[0], v[1], 0, 0).subrange(0, 1)
    } else {
        Seq::empty()
    }
}

/// The bytes a base64 text decodes to.
pub open spec fn base64_decode_spec(s: Seq<u8>) -> Seq<u8> {
    sextets_to_bytes(sextets(s))
}

/// Three bytes as four alphabet bytes.
pub open spec fn encode_group(a: u8, b: u8, c: u8) -> Seq<u8> {
    seq![
        b64_char(a >> 2),
        b64_char((((a & 3) << 4) | (b >> 4)) as u8),
        b64_char((((b & 15) << 2) | (c >> 6)) as u8),
        b64_char(c & 63),
    ]
}

/// Padded standard base64 of `b`.
pub open spec fn base64_encode_spec(b: Seq<u8>) -> Seq<u8>
    decreases b.len(),
{
    if b.len() >= 3 {
        encode_group(b[0], b[1], b[2]) + base64_encode_spec(b.subrange(3, b.len() as int))
    } else if b.len() == 2 {
        encode_group(b[0], b[1], 0).subrange(0, 3).push(61)
    } else if b.len() == 1 {
        encode_group(b[0], 0, 0).subrange(0, 2).push(61).push(61)
    } else {
        Seq::empty()
    }
}

proof fn lemma_alphabet_round_trip(v: u8)
    requires
        v < 64,
    ensures
        is_b64_char(b64_char(v)),
        sextet_of(b64_char(v)) == v,
        b64_char(v) != 61,
{
}

proof fn lemma_sextets_concat(x: Seq<u8>, y: Seq<u8>)
    requires
        forall|i: int| 0 <= i < x.len() ==> is_b64_char(#[trigger] x[i]),
    ensures
        sextets(x + y) == x.map_values(|c: u8| sextet_of(c)) + sextets(y),
    decreases x.len(),
{
    if x.len() == 0 {
        assert(x + y == y);
    } else {
        assert((x + y).drop_first() == x.drop_first() + y);
        lemma_sextets_concat(x.drop_first(), y);
        assert(x.map_values(|c: u8| sextet_of(c)) == seq![sextet_of(x[0])] + x.drop_first().map_values(
            |c: u8| sextet_of(c),
        ));
    }
}

proof fn lemma_group_round_trip(a: u8, b: u8, c: u8)
    ensures
        group_bytes(a >> 2, (((a & 3) << 4) | (b >> 4)) as u8, (((b & 15) << 2) | (c >> 6)) as u8, c
            & 63) == seq![a, b, c],
{
    assert(((a >> 2) << 2) | ((((a & 3) << 4) | (b >> 4)) >> 4) == a) by (bit_vector);
    assert((((((a & 3) << 4) | (b >> 4)) & 15) << 4) | ((((b & 15) << 2) | (c >> 6)) >> 2) == b) by (
    bit_vector);
    assert((((((b & 15) << 2) | (c >> 6)) & 3) << 6) | (c & 63) == c) by (bit_vector);
}

proof fn lemma_group_sextets_small(a: u8, b: u8, c: u8)
    ensures
        a >> 2 < 64,
        ((((a & 3) << 4) | (b >> 4)) as u8) < 64,
        ((((b & 15) << 2) | (c >> 6)) as u8) < 64,
        c & 63 < 64,
        ((((a & 3) << 4) | (0u8 >> 4)) as u8) == (a & 3) << 4,
        ((((b & 15) << 2) | (0u8 >> 6)) as u8) == (b & 15) << 2,
{
    assert(a >> 2 < 64) by (bit_vector);
    assert(((((a & 3) << 4) | (b >> 4)) as u8) < 64) by (bit_vector);
    assert(((((b & 15) << 2) | (c >> 6)) as u8) < 64) by (bit_vector);
    assert(c & 63 < 64) by (bit_vector);
    assert(((((a & 3) << 4) | (0u8 >> 4)) as u8) == (a & 3) << 4) by (bit_vector);
    assert(((((b & 15) << 2) | (0u8 >> 6)) as u8) == (b & 15) << 2) by (bit_vector);
}

proof fn lemma_encode_shape(b: Seq<u8>)
    ensures
        base64_encode_spec(b).len() % 4 == 0,
        base64_encode_spec(b).len() == 0 <==> b.len() == 0,
        b64_padding(base64_encode_spec(b)) == (if b.len() % 3 == 0 {
            0nat
        } else if b.len() % 3 == 1 {
            2nat
        } else {
            1nat
        }),
        forall|i: int|
            0 <= i < base64_encode_spec(b).len() - b64_padding(base64_encode_spec(b)) ==> is_b64_char(
                #[trigger] base64_encode_spec(b)[i],
            ),
    decreases b.len(),
{
    let e = base64_encode_spec(b);
    if b.len() >= 3 {
        let g = encode_group(b[0], b[1], b[2]);
        let rest = b.subrange(3, b.len() as int);
        lemma_encode_shape(rest);
        let er = base64_encode_spec(rest);
        assert(e == g + er);
        lemma_group_sextets_small(b[0], b[1], b[2]);
        assert(rest.len() % 3 == b.len() % 3);
        if er.len() == 0 {
            assert(e == g);
            assert(e[3] != 61);
        } else {
            assert(e[e.len() - 1] == er[er.len() - 1]);
            assert(e[e.len() - 2] == er[er.len() - 2]);
        }
        assert forall|i: int| 0 <= i < e.len() - b64_padding(e) implies is_b64_char(#[trigger] e[i]) by {
            if i >= 4 {
                assert(e[i] == er[i - 4]);
            }
        }
    } else if b.len() == 2 {
        lemma_group_sextets_small(b[0], b[1], 0);
    } else if b.len() == 1 {
        lemma_group_sextets_small(b[0], 0, 0);
    }
}

/// The base64 law: the padded encoding of any bytes is valid base64, and
/// decoding it gives the bytes back.
pub proof fn lemma_base64_round_trip(b: Seq<u8>)
    ensures
        valid_base64(base64_encode_spec(b)),
        base64_decode_spec(base64_encode_spec(b)) == b,
    decreases b.len(),
{
    lemma_encode_shape(b);
    let e = base64_encode_spec(b);
    if b.len() >= 3 {
        let g = encode_group(b[0], b[1], b[2]);
        let rest = b.subrange(3, b.len() as int);
        lemma_base64_round_trip(rest);
        let er = base64_encode_spec(rest);
        let (v0, v1, v2, v3) = (
            b[0] >> 2,
            (((b[0] & 3) << 4) | (b[1] >> 4)) as u8,
            (((b[1] & 15) << 2) | (b[2] >> 6)) as u8,
            b[2] & 63,
        );
        lemma_group_sextets_small(b[0], b[1], b[2]);
        lemma_alphabet_round_trip(v0);
        lemma_alphabet_round_trip(v1);
        lemma_alphabet_round_trip(v2);
        lemma_alphabet_round_trip(v3);
        lemma_sextets_concat(g, er);
        assert(g.map_values(|c: u8| sextet_of(c)) == seq![v0, v1, v2, v3]);
        let sv = sextets(e);
        assert(e == g + er);
        assert(sv == seq![v0, v1, v2, v3] + sextets(er));
        assert(sv.subrange(4, sv.len() as int) == sextets(er));
        lemma_group_round_trip(b[0], b[1], b[2]);
        assert(b == seq![b[0], b[1], b[2]] + rest);
    } else if b.len() == 2 {
        let g = encode_group(b[0], b[1], 0);
        let (v0, v1, v2) = (
            b[0] >> 2,
            (((b[0] & 3) << 4) | (b[1] >> 4)) as u8,
            (((b[1] & 15) << 2) | (0u8 >> 6)) as u8,
        );
        lemma_group_sextets_small(b[0], b[1], 0);
        lemma_alphabet_round_trip(v0);
        lemma_alphabet_round_trip(v1);
        lemma_alphabet_round_trip(v2);
        let x = g.subrange(0, 3);
        assert(e == x + seq![61u8]);
        lemma_sextets_concat(x, seq![61u8]);
        assert(x.map_values(|c: u8| sextet_of(c)) == seq![v0, v1, v2]);
        assert(sextets(seq![61u8]) == Seq::<u8>::empty());
        assert(sextets(e) == seq![v0, v1, v2]);
        lemma_group_round_trip(b[0], b[1], 0);
    } else if b.len() == 1 {
        let g = encode_group(b[0], 0, 0);
        let (v0, v1) = (b[0] >> 2, (((b[0] & 3) << 4) | (0u8 >> 4)) as u8);
        lemma_group_sextets_small(b[0], 0, 0);
        lemma_alphabet_round_trip(v0);
        lemma_alphabet_round_trip(v1);
        let x = g.subrange(0, 2);
        assert(e == x + seq![61u8, 61u8]);
        lemma_sextets_concat(x, seq![61u8, 61u8]);
        assert(x.map_values(|c: u8| sextet_of(c)) == seq![v0, v1]);
        assert(sextets(seq![61u8, 61u8]) == Seq::<u8>::empty());
        assert(sextets(e) == seq![v0, v1]);
        lemma_group_round_trip(b[0], 0, 0);
    } else {
        assert(b == Seq::<u8>::empty());
    }
}

pub fn is_b64(c: u8) -> (r: bool)
    ensures
        r == is_b64_char(c),
{
    (c >= 65 && c <= 90) || (c >= 97 && c <= 122) || (c >= 48 && c <= 57) || c == 43 || c == 47
}

fn sextet(c: u8) -> (v: u8)
    ensures
        v == sextet_of(c),
{
    if c >= 65 && c <= 90 {
        c - 65
    } else if c >= 97 && c <= 122 {
        c - 97 + 26
    } else if c >= 48 && c <= 57 {
        c - 48 + 52
    } else if c == 43 {
        62
    } else {
        63
    }
}

fn alphabet(v: u8) -> (c: u8)
    requires
        v < 64,
    ensures
        c == b64_char(v),
        is_b64_char(c),
        sextet_of(c) == v,
{
    if v < 26 {
        v + 65
    } else if v < 52 {
        v - 26 + 97
    } else if v < 62 {
        v - 52 + 48
    } else if v == 62 {
        43
    } else {
        47
    }
}

/// Whether `s` is standard (padded) or raw (unpadded) base64.
pub fn is_valid_base64(s: &[u8]) -> (r: bool)
    ensures
        r == valid_base64(s@),
{
    let n = s.len();
    if n == 0 {
        return true;
    }
    let mut content_end = n;
    let mut pad: usize = 0;
    while content_end > 0 && s[content_end - 1] == 61 && pad < 2
        invariant
            content_end + pad == n,
            pad <= 2,
            n == s@.len(),
            n > 0,
            forall|k: int| content_end <= k < n ==> s@[k] == 61,
        decreases content_end,
    {
        content_end = content_end - 1;
        pad = pad + 1;
    }
    assert(pad == b64_padding(s@));
    let mut i: usize = 0;
    while i < content_end
        invariant
            i <= content_end,
            content_end == n - b64_padding(s@),
            n == s@.len(),
            forall|k: int| 0 <= k < i ==> is_b64_char(#[trigger] s@[k]),
        decreases content_end - i,
    {
        if !is_b64(s[i]) {
            return false;
        }
        i = i + 1;
    }
    if pad == 0 {
        n % 4 != 1
    } else {
        n % 4 == 0
    }
}

/// The six-bit values of the alphabet bytes before the first `=`.
fn collect_sextets(s: &[u8]) -> (v: Vec<u8>)
    ensures
        v@ == sextets(s@),
        forall|i: int| 0 <= i < v@.len() ==> v@[i] < 64,
{
    let mut v: Vec<u8> = Vec::new();
    let mut i: usize = 0;
    assert(s@.subrange(0, s@.len() as int) == s@);
    assert(v@ + sextets(s@) == sextets(s@));
    while i < s.len()
        invariant
            i <= s@.len(),
            sextets(s@) == v@ + sextets(s@.subrange(i as int, s@.len() as int)),
            forall|k: int| 0 <= k < v@.len() ==> v@[k] < 64,
        decreases s@.len() - i,
    {
        let c = s[i];
        let ghost rest = s@.subrange(i as int, s@.len() as int);
        assert(rest.drop_first() == s@.subrange(i + 1, s@.len() as int));
        if c == 61 {
            assert(sextets(rest) == Seq::<u8>::empty());
            assert(v@ + Seq::<u8>::empty() == v@);
            return v;
        }
        if is_b64(c) {
            v.push(sextet(c));
            assert(sextets(rest) == seq![sextet_of(c)] + sextets(rest.drop_first()));
            assert(v@ == v@.drop_last() + seq![sextet_of(c)]);
        }
        i = i + 1;
    }
    assert(s@.subrange(s@.len() as int, s@.len() as int) == Seq::<u8>::empty());
    v
}

/// Decode a base64 text (standard or raw). `=` ends the data; bytes outside
/// the alphabet are skipped.
pub fn decode_base64(s: &[u8]) -> (out: Vec<u8>)
    ensures
        out@ == base64_decode_spec(s@),
{
    let v = collect_sextets(s);
    let mut out: Vec<u8> = Vec::new();
    let mut i: usize = 0;
    let n = v.len();
    assert(v@.subrange(0, n as int) == v@);
    assert(out@ + sextets_to_bytes(v@) == sextets_to_bytes(v@));
    while n - i >= 4
        invariant
            i <= n,
            n == v@.len(),
            sextets_to_bytes(v@) == out@ + sextets_to_bytes(v@.subrange(i as int, n as int)),
        decreases n - i,
    {
        let ghost rest = v@.subrange(i as int, n as int);
        assert(rest.subrange(4, rest.len() as int) == v@.subrange(i + 4, n as int));
        let (a, b, c, d) = (v[i], v[i + 1], v[i + 2], v[i + 3]);
        out.push((a << 2) | (b >> 4));
        out.push(((b & 15) << 4) | (c >> 2));
        out.push(((c & 3) << 6) | d);
        proof {
            assert(group_bytes(a, b, c, d) == seq![((a << 2) | (b >> 4)) as u8, (((b & 15) << 4) | (c
                >> 2)) as u8, (((c & 3) << 6) | d) as u8]);
        }
        i = i + 4;
    }
    let rem = n - i;
    let ghost rest = v@.subrange(i as int, n as int);
    if rem == 3 {
        let (a, b, c) = (v[i], v[i + 1], v[i + 2]);
        out.push((a << 2) | (b >> 4));
        out.push(((b & 15) << 4) | (c >> 2));
    } else if rem == 2 {
        let (a, b) = (v[i], v[i + 1]);
        out.push((a << 2) | (b >> 4));
    }
    proof {
        if rem == 3 {
            assert(sextets_to_bytes(rest) == group_bytes(rest[0], rest[1], rest[2], 0).subrange(0, 2));
        } else if rem == 2 {
            assert(sextets_to_bytes(rest) == group_bytes(rest[0], rest[1], 0, 0).subrange(0, 1));
        } else {
            assert(sextets_to_bytes(rest) == Seq::<u8>::empty());
        }
    }
    out
}

/// Padded standard base64 of `bytes`, as text.
pub fn encode_base64(bytes: &[u8]) -> (out: String)
    ensures
        out@ == base64_encode_spec(bytes@).map_values(|c: u8| c as char),
{
    let mut out = String::new();
    let n = bytes.len();
    let mut i: usize = 0;
    assert(bytes@.subrange(0, n as int) == bytes@);
    assert(out@ + base64_encode_spec(bytes@).map_values(|c: u8| c as char)
        == base64_encode_spec(bytes@).map_values(|c: u8| c as char));
    while n - i >= 3
        invariant
            i <= n,
            n == bytes@.len(),
            base64_encode_spec(bytes@).map_values(|c: u8| c as char) == out@
                + base64_encode_spec(bytes@.subrange(i as int, n as int)).map_values(
                |c: u8| c as char,
            ),
        decreases n - i,
    {
        let ghost rest = bytes@.subrange(i as int, n as int);
        assert(rest.subrange(3, rest.len() as int) == bytes@.subrange(i + 3, n as int));
        let (a, b, c) = (bytes[i], bytes[i + 1], bytes[i + 2]);
        let ghost before = out@;
        assert(a >> 2 < 64 && (((a & 3) << 4) | (b >> 4)) < 64 && (((b & 15) << 2) | (c >> 6)) < 64
            && c & 63 < 64) by (bit_vector);
        push_char(&mut out, alphabet(a >> 2) as char);
        push_char(&mut out, alphabet(((a & 3) << 4) | (b >> 4)) as char);
        push_char(&mut out, alphabet(((b & 15) << 2) | (c >> 6)) as char);
        push_char(&mut out, alphabet(c & 63) as char);
        proof {
            let g = encode_group(a, b, c);
            let tail = base64_encode_spec(bytes@.subrange(i + 3, n as int));
            assert(base64_encode_spec(rest) == g + tail);
            assert((g + tail).map_values(|c: u8| c as char) == g.map_values(|c: u8| c as char)
                + tail.map_values(|c: u8| c as char));
            assert(out@ == before + g.map_values(|c: u8| c as char));
        }
        i = i + 3;
    }
    let rem = n - i;
    let ghost rest = bytes@.subrange(i as int, n as int);
    let ghost before = out@;
    if rem == 1 {
        let a = bytes[i];
        assert(a >> 2 < 64 && (a & 3) << 4 < 64) by (bit_vector);
        push_char(&mut out, alphabet(a >> 2) as char);
        push_char(&mut out, alphabet((a & 3) << 4) as char);
        push_char(&mut out, '=');
        push_char(&mut out, '=');
        proof {
            let g = encode_group(a, 0, 0);
            assert(((a & 3) << 4) | (0u8 >> 4) == (a & 3) << 4) by (bit_vector);
            assert(base64_encode_spec(rest) == g.subrange(0, 2).push(61).push(61));
            assert(out@ == before + base64_encode_spec(rest).map_values(|c: u8| c as char));
        }
    } else if rem == 2 {
        let (a, b) = (bytes[i], bytes[i + 1]);
        assert(a >> 2 < 64 && (((a & 3) << 4) | (b >> 4)) < 64 && (b & 15) << 2 < 64) by (
        bit_vector);
        push_char(&mut out, alphabet(a >> 2) as char);
        push_char(&mut out, alphabet(((a & 3) << 4) | (b >> 4)) as char);
        push_char(&mut out, alphabet((b & 15) << 2) as char);
        push_char(&mut out, '=');
        proof {
            let g = encode_group(a, b, 0);
            assert(((b & 15) << 2) | (0u8 >> 6) == (b & 15) << 2) by (bit_vector);
            assert(base64_encode_spec(rest) == g.subrange(0, 3).push(61));
            assert(out@ == before + base64_encode_spec(rest).map_values(|c: u8| c as char));
        }
    } else {
        proof {
            assert(base64_encode_spec(rest) == Seq::<u8>::empty());
            assert(out@ == before + base64_encode_spec(rest).map_values(|c: u8| c as char));
        }
    }
    out
}

} // verus!
