//! Wire primitives: varints, zigzag, fixed widths, strings, tags, skipping.
use protowire::pb::wire::{Error, Reader, WireType, Writer};


fn round_trip_varint(v: u64) -> u64 {
    let mut w = Writer::new();
    w.varint(v);
    let bytes = w.finish();
    let mut r = Reader::new(&bytes);
    let out = r.varint().unwrap();
    assert!(r.eof());
    out
}

#[test]
fn varint_encodes_zero_as_single_byte() {
    let mut w = Writer::new();
    w.varint(0);
    assert_eq!(w.finish(), vec![0]);
}

#[test]
fn varint_round_trips_small_numbers() {
    for v in [0u64, 1, 127, 128, 255, 256, 16383, 16384] {
        assert_eq!(round_trip_varint(v), v);
    }
}

#[test]
fn varint_round_trips_up_to_i64_max() {
    let v = i64::MAX as u64;
    assert_eq!(round_trip_varint(v), v);
}

#[test]
fn varint_round_trips_full_uint64_range() {
    for v in [0u64, 1, 0x80, 0xff, 0xffff, 0xffff_ffff, u64::MAX] {
        assert_eq!(round_trip_varint(v), v);
    }
}

#[test]
fn varint_encodes_150_as_canonical_proto_example() {
    let mut w = Writer::new();
    w.varint(150);
    assert_eq!(w.finish(), vec![0x96, 0x01]);
}

#[test]
fn zigzag32_matches_proto3_spec() {
    let cases: &[(i32, u32)] = &[
        (0, 0),
        (-1, 1),
        (1, 2),
        (-2, 3),
        (2147483647, 4294967294),
        (-2147483648, 4294967295),
    ];
    for &(signed, encoded) in cases {
        let mut w = Writer::new();
        w.zigzag32(signed);
        let bytes = w.finish();
        let mut r = Reader::new(&bytes);
        assert_eq!(r.varint().unwrap() as u32, encoded);

        let mut r2 = Reader::new(&bytes);
        assert_eq!(r2.zigzag32().unwrap(), signed);
    }
}

#[test]
fn zigzag64_round_trips_boundary_values() {
    for v in [0i64, -1, 1, -2, i64::MAX, i64::MIN] {
        let mut w = Writer::new();
        w.zigzag64(v);
        let bytes = w.finish();
    let mut r = Reader::new(&bytes);
        assert_eq!(r.zigzag64().unwrap(), v);
    }
}

#[test]
fn fixed32_round_trips() {
    for v in [0u32, 1, 0x7fff_ffff, 0xffff_ffff] {
        let mut w = Writer::new();
        w.fixed32(v);
        let bytes = w.finish();
    let mut r = Reader::new(&bytes);
        assert_eq!(r.fixed32().unwrap(), v);
    }
}

#[test]
fn fixed64_round_trips_uint64() {
    for v in [0u64, 1, 0xffff_ffff, u64::MAX] {
        let mut w = Writer::new();
        w.fixed64(v);
        let bytes = w.finish();
    let mut r = Reader::new(&bytes);
        assert_eq!(r.fixed64().unwrap(), v);
    }
}

#[test]
fn float_and_double_round_trip() {
    // floats travel as their IEEE-754 bits over fixed32 / fixed64
    let mut w = Writer::new();
    w.fixed32(2.5f32.to_bits());
    w.fixed64(std::f64::consts::PI.to_bits());
    let bytes = w.finish();
    let mut r = Reader::new(&bytes);
    assert!((f32::from_bits(r.fixed32().unwrap()) - 2.5).abs() < 1e-5);
    assert_eq!(f64::from_bits(r.fixed64().unwrap()), std::f64::consts::PI);
}

#[test]
fn utf8_strings_round_trip() {
    let mut w = Writer::new();
    w.string("héllo, 世界");
    let bytes = w.finish();
    let mut r = Reader::new(&bytes);
    assert_eq!(r.string().unwrap(), "héllo, 世界");
}

#[test]
fn bytes_round_trip() {
    let mut w = Writer::new();
    w.bytes(&[0xde, 0xad, 0xbe, 0xef]);
    let bytes = w.finish();
    let mut r = Reader::new(&bytes);
    assert_eq!(r.bytes().unwrap(), vec![0xde, 0xad, 0xbe, 0xef]);
}

#[test]
fn tag_for_field_1_varint_is_0x08() {
    let mut w = Writer::new();
    w.tag(1, WireType::Varint);
    assert_eq!(w.finish(), vec![0x08]);
}

#[test]
fn tag_decodes_back_to_field_number_and_wire_type() {
    let mut w = Writer::new();
    w.tag(15, WireType::LengthDelimited);
    let bytes = w.finish();
    let mut r = Reader::new(&bytes);
    assert_eq!(r.tag().unwrap(), (15, WireType::LengthDelimited));
}

#[test]
fn skip_handles_each_wire_type() {
    let mut w = Writer::new();
    w.tag(1, WireType::Varint);
    w.varint(150);
    w.tag(2, WireType::Fixed32);
    w.fixed32(0xdead_beef);
    w.tag(3, WireType::Fixed64);
    w.fixed64(0xdead_beef_cafe_babe);
    w.tag(4, WireType::LengthDelimited);
    w.string("skip me");
    w.tag(5, WireType::Varint);
    w.varint(7);

    let bytes = w.finish();
    let mut r = Reader::new(&bytes);
    let mut keep5: Option<u64> = None;
    while !r.eof() {
        let (num, wt) = r.tag().unwrap();
        if num == 5 {
            keep5 = Some(r.varint().unwrap());
        } else {
            r.skip(wt).unwrap();
        }
    }
    assert_eq!(keep5, Some(7));
}

#[test]
fn truncated_varint_is_rejected() {
    let mut r = Reader::new(&[0x80]);
    assert!(matches!(r.varint(), Err(Error::TruncatedVarint)));
}

#[test]
fn length_prefix_max_varint_does_not_overflow() {
    // tag(1, LengthDelimited) + 10-byte u64::MAX varint length.
    // Naive `pos + len > data.len()` would wrap and slip past the
    // bounds check, then panic on the slice. It must be a clean reject.
    let mut bytes = vec![0x0a];
    // u64::MAX as a 10-byte varint
    bytes.extend_from_slice(&[0xff, 0xff, 0xff, 0xff, 0xff, 0xff, 0xff, 0xff, 0xff, 0x01]);
    let mut r = Reader::new(&bytes);
    let (_, _) = r.tag().unwrap();
    assert!(matches!(r.bytes_view(), Err(Error::TruncatedLengthDelim)));
}

#[test]
fn length_prefix_overflow_during_skip_does_not_panic() {
    let mut bytes = vec![0x0a];
    bytes.extend_from_slice(&[0xff, 0xff, 0xff, 0xff, 0xff, 0xff, 0xff, 0xff, 0xff, 0x01]);
    let mut r = Reader::new(&bytes);
    let (_, wt) = r.tag().unwrap();
    assert!(matches!(r.skip(wt), Err(Error::TruncatedLengthDelim)));
}

#[test]
fn invalid_utf8_string_keeps_std_error() {
    let mut w = Writer::new();
    w.bytes(&[0x61, 0xff, 0x62]);
    let bytes = w.finish();
    let mut r = Reader::new(&bytes);
    match r.string() {
        Err(Error::InvalidUtf8(e)) => {
            assert_eq!(e.as_bytes(), &[0x61, 0xff, 0x62]);
            assert_eq!(e.utf8_error().valid_up_to(), 1);
        }
        other => panic!("expected InvalidUtf8, got {:?}", other),
    }
}
