//! Byte-level tests of the codec: scalar and composite round trips, the
//! documented edge cases, every error variant, and the end-to-end packet
//! scenario.

use tdf_codec::label::{label_to_tag, tag_to_label};
use tdf_codec::packet::{read_packet, read_packet_contents, Packet};
use tdf_codec::tdf::{LabeledTdf, Readable, Tdf, TdfError, TdfType, Writeable};
use tdf_codec::varint::VarInt;

fn encode(v: &Tdf) -> Vec<u8> {
    let mut out = Vec::new();
    v.write(&mut out);
    out
}

fn decode(bytes: &Vec<u8>, t: TdfType) -> (Result<Tdf, TdfError>, usize) {
    let mut pos = 0usize;
    let r = Tdf::read(bytes, &mut pos, &t);
    (r, pos)
}

fn varint_roundtrip(v: i64) -> usize {
    let mut out = Vec::new();
    VarInt(v).write(&mut out);
    let mut pos = 0usize;
    let back = VarInt::read(&out, &mut pos).expect("decode failed");
    assert_eq!(back, VarInt(v));
    assert_eq!(pos, out.len());
    out.len()
}

#[test]
fn varint_roundtrip_small_values() {
    for v in 0i64..200 {
        varint_roundtrip(v);
    }
}

#[test]
fn varint_roundtrip_boundaries() {
    assert_eq!(varint_roundtrip(0), 1);
    assert_eq!(varint_roundtrip(0x3F), 1);
    assert_eq!(varint_roundtrip(0x40), 2);
    assert_eq!(varint_roundtrip(i64::MAX), 10);
    assert_eq!(varint_roundtrip(-1), 10);
    assert_eq!(varint_roundtrip(i64::MIN), 10);
    varint_roundtrip(123_456_789);
    varint_roundtrip(-123_456_789);
}

#[test]
fn varint_exact_bytes() {
    let mut out = Vec::new();
    VarInt(5).write(&mut out);
    assert_eq!(out, vec![5u8]);
    let mut out = Vec::new();
    VarInt(0x40).write(&mut out);
    assert_eq!(out, vec![0x80u8, 0x01]);
    let mut out = Vec::new();
    VarInt(0x1234).write(&mut out);
    // low six bits 0x34, then 0x1234 >> 6 == 0x48
    assert_eq!(out, vec![0xB4u8, 0x48]);
}

#[test]
fn varint_accepts_non_minimal_form() {
    // a zero spelled with a needless continuation byte still reads as zero
    let bytes = vec![0x80u8, 0x00];
    let mut pos = 0usize;
    let v = VarInt::read(&bytes, &mut pos).expect("decode failed");
    assert_eq!(v, VarInt(0));
    assert_eq!(pos, 2);
}

#[test]
fn varint_truncated_stream_fails() {
    let bytes = vec![0x80u8, 0xFF, 0xFF];
    let mut pos = 0usize;
    assert_eq!(VarInt::read(&bytes, &mut pos), Err(TdfError::Truncated));
    let empty: Vec<u8> = Vec::new();
    let mut pos = 0usize;
    assert_eq!(VarInt::read(&empty, &mut pos), Err(TdfError::Truncated));
}

#[test]
fn label_roundtrip_four_chars() {
    for label in [b"TEST".to_vec(), b"NUM1".to_vec(), b"ABCD".to_vec(), b"_Z9!".to_vec()] {
        let tag = label_to_tag(&label);
        assert_eq!(tag.len(), 3);
        let back = tag_to_label(tag[0], tag[1], tag[2]);
        assert_eq!(back, label);
    }
}

#[test]
fn label_roundtrip_short_labels() {
    for label in [b"A".to_vec(), b"AB".to_vec(), b"ABC".to_vec()] {
        let tag = label_to_tag(&label);
        let back = tag_to_label(tag[0], tag[1], tag[2]);
        assert_eq!(back, label);
    }
}

#[test]
fn label_exact_tag_bytes() {
    let tag = label_to_tag(&b"TEST".to_vec());
    assert_eq!(tag, vec![0xD2u8, 0x5C, 0xF4]);
    let tag = label_to_tag(&b"NUM1".to_vec());
    assert_eq!(tag, vec![0xBBu8, 0x5B, 0x51]);
}

#[test]
fn string_roundtrip() {
    let v = Tdf::String(b"hello".to_vec());
    let bytes = encode(&v);
    // length six (text plus terminator), text, one trailing NUL
    assert_eq!(bytes, vec![6u8, b'h', b'e', b'l', b'l', b'o', 0]);
    let (r, used) = decode(&bytes, TdfType::String);
    assert_eq!(r.unwrap(), v);
    assert_eq!(used, bytes.len());
}

#[test]
fn string_empty_roundtrip() {
    let v = Tdf::String(Vec::new());
    let bytes = encode(&v);
    assert_eq!(bytes, vec![1u8, 0]);
    let (r, used) = decode(&bytes, TdfType::String);
    assert_eq!(r.unwrap(), v);
    assert_eq!(used, 2);
}

#[test]
fn string_zero_length_reads_as_empty() {
    // an encoded length of zero must not underflow: it is the empty text
    let bytes = vec![0u8];
    let (r, used) = decode(&bytes, TdfType::String);
    assert_eq!(r.unwrap(), Tdf::String(Vec::new()));
    assert_eq!(used, 1);
}

#[test]
fn string_invalid_utf8_rejected() {
    let bytes = vec![3u8, 0xFF, 0xFE, 0x00];
    let (r, _) = decode(&bytes, TdfType::String);
    assert_eq!(r, Err(TdfError::InvalidUtf8));
}

#[test]
fn string_multibyte_utf8_roundtrip() {
    let text = "héllo ✓".as_bytes().to_vec();
    let v = Tdf::String(text);
    let bytes = encode(&v);
    let (r, used) = decode(&bytes, TdfType::String);
    assert_eq!(r.unwrap(), v);
    assert_eq!(used, bytes.len());
}

#[test]
fn blob_roundtrip() {
    let v = Tdf::Blob(vec![0u8, 1, 2, 0xFF, 0x80]);
    let bytes = encode(&v);
    assert_eq!(bytes, vec![5u8, 0, 1, 2, 0xFF, 0x80]);
    let (r, used) = decode(&bytes, TdfType::Blob);
    assert_eq!(r.unwrap(), v);
    assert_eq!(used, bytes.len());
}

#[test]
fn group_roundtrip_with_marker() {
    let child = LabeledTdf(b"NUM1".to_vec(), TdfType::VarInt, Tdf::VarInt(VarInt(7)));
    let v = Tdf::Group(true, vec![child]);
    let bytes = encode(&v);
    assert_eq!(bytes[0], 2);
    assert_eq!(*bytes.last().unwrap(), 0);
    let (r, used) = decode(&bytes, TdfType::Group);
    assert_eq!(r.unwrap(), v);
    assert_eq!(used, bytes.len());
}

#[test]
fn group_empty_roundtrip() {
    for marker in [false, true] {
        let v = Tdf::Group(marker, Vec::new());
        let bytes = encode(&v);
        if marker {
            assert_eq!(bytes, vec![2u8, 0]);
        } else {
            assert_eq!(bytes, vec![0u8]);
        }
        let (r, used) = decode(&bytes, TdfType::Group);
        assert_eq!(r.unwrap(), v);
        assert_eq!(used, bytes.len());
    }
}

#[test]
fn list_roundtrip() {
    let v = Tdf::List(
        TdfType::VarInt,
        vec![Tdf::VarInt(VarInt(1)), Tdf::VarInt(VarInt(2)), Tdf::VarInt(VarInt(300))],
    );
    let bytes = encode(&v);
    // element type, true count, then the three elements
    assert_eq!(bytes[0], 0x00);
    assert_eq!(bytes[1], 3);
    let (r, used) = decode(&bytes, TdfType::List);
    assert_eq!(r.unwrap(), v);
    assert_eq!(used, bytes.len());
}

#[test]
fn list_empty_roundtrip() {
    let v = Tdf::List(TdfType::String, Vec::new());
    let bytes = encode(&v);
    assert_eq!(bytes, vec![0x01u8, 0]);
    let (r, used) = decode(&bytes, TdfType::List);
    assert_eq!(r.unwrap(), v);
    assert_eq!(used, bytes.len());
}

#[test]
fn dict_roundtrip() {
    let v = Tdf::Dict(
        TdfType::VarInt,
        TdfType::String,
        vec![Tdf::VarInt(VarInt(1)), Tdf::VarInt(VarInt(2))],
        vec![Tdf::String(b"one".to_vec()), Tdf::String(b"two".to_vec())],
    );
    let bytes = encode(&v);
    // key type, value type, true count, then interleaved pairs
    assert_eq!(&bytes[0..3], &[0x00u8, 0x01, 2]);
    let (r, used) = decode(&bytes, TdfType::Dict);
    assert_eq!(r.unwrap(), v);
    assert_eq!(used, bytes.len());
}

#[test]
fn dict_empty_roundtrip() {
    let v = Tdf::Dict(TdfType::VarInt, TdfType::VarInt, Vec::new(), Vec::new());
    let bytes = encode(&v);
    assert_eq!(bytes, vec![0x00u8, 0x00, 0]);
    let (r, used) = decode(&bytes, TdfType::Dict);
    assert_eq!(r.unwrap(), v);
    assert_eq!(used, bytes.len());
}

#[test]
fn varintlist_roundtrip() {
    let v = Tdf::VarIntList(vec![VarInt(1), VarInt(-1), VarInt(0x7FFF)]);
    let bytes = encode(&v);
    assert_eq!(bytes[0], 3);
    let (r, used) = decode(&bytes, TdfType::VarIntList);
    assert_eq!(r.unwrap(), v);
    assert_eq!(used, bytes.len());
}

#[test]
fn varintlist_empty_roundtrip() {
    let v = Tdf::VarIntList(Vec::new());
    let bytes = encode(&v);
    assert_eq!(bytes, vec![0u8]);
    let (r, used) = decode(&bytes, TdfType::VarIntList);
    assert_eq!(r.unwrap(), v);
    assert_eq!(used, bytes.len());
}

#[test]
fn union_absent_roundtrip() {
    let v = Tdf::Union(0x7F, None);
    let bytes = encode(&v);
    assert_eq!(bytes, vec![0x7Fu8]);
    let (r, used) = decode(&bytes, TdfType::Union);
    assert_eq!(r.unwrap(), v);
    assert_eq!(used, 1);
}

#[test]
fn union_present_roundtrip() {
    let payload = LabeledTdf(b"VALU".to_vec(), TdfType::VarInt, Tdf::VarInt(VarInt(9)));
    let v = Tdf::Union(0, Some(Box::new(payload)));
    let bytes = encode(&v);
    assert_eq!(bytes[0], 0);
    let (r, used) = decode(&bytes, TdfType::Union);
    assert_eq!(r.unwrap(), v);
    assert_eq!(used, bytes.len());
}

#[test]
fn union_present_consumes_exactly_one_value() {
    // a union payload followed by trailing bytes leaves the trailer unread
    let payload = LabeledTdf(b"VALU".to_vec(), TdfType::VarInt, Tdf::VarInt(VarInt(9)));
    let v = Tdf::Union(1, Some(Box::new(payload)));
    let mut bytes = encode(&v);
    let plain_len = bytes.len();
    bytes.push(0xAA);
    bytes.push(0xBB);
    let (r, used) = decode(&bytes, TdfType::Union);
    assert_eq!(r.unwrap(), v);
    assert_eq!(used, plain_len);
}

#[test]
fn pair_and_tripple_roundtrip() {
    let v = Tdf::Pair(VarInt(3), VarInt(-4));
    let bytes = encode(&v);
    let (r, used) = decode(&bytes, TdfType::Pair);
    assert_eq!(r.unwrap(), v);
    assert_eq!(used, bytes.len());

    let v = Tdf::Tripple(VarInt(1), VarInt(2), VarInt(3));
    let bytes = encode(&v);
    assert_eq!(bytes, vec![1u8, 2, 3]);
    let (r, used) = decode(&bytes, TdfType::Tripple);
    assert_eq!(r.unwrap(), v);
    assert_eq!(used, 3);
}

#[test]
fn float_roundtrip_big_endian() {
    let x: f32 = 1.5;
    let v = Tdf::Float(x.to_bits());
    let bytes = encode(&v);
    assert_eq!(bytes, x.to_be_bytes().to_vec());
    let (r, used) = decode(&bytes, TdfType::Float);
    match r.unwrap() {
        Tdf::Float(w) => assert_eq!(f32::from_bits(w), 1.5),
        other => panic!("wrong shape: {:?}", other),
    }
    assert_eq!(used, 4);
}

#[test]
fn nested_group_roundtrip() {
    let inner = Tdf::Group(
        false,
        vec![LabeledTdf(b"STR!".to_vec(), TdfType::String, Tdf::String(b"deep".to_vec()))],
    );
    let outer = Tdf::Group(
        true,
        vec![
            LabeledTdf(b"SUB0".to_vec(), TdfType::Group, inner),
            LabeledTdf(b"LIST".to_vec(), TdfType::List, Tdf::List(
                TdfType::Blob,
                vec![Tdf::Blob(vec![9u8, 8])],
            )),
        ],
    );
    let bytes = encode(&outer);
    let (r, used) = decode(&bytes, TdfType::Group);
    assert_eq!(r.unwrap(), outer);
    assert_eq!(used, bytes.len());
}

#[test]
fn encode_is_deterministic() {
    let v = Tdf::Group(
        false,
        vec![LabeledTdf(b"NUM1".to_vec(), TdfType::VarInt, Tdf::VarInt(VarInt(5)))],
    );
    assert_eq!(encode(&v), encode(&v));
}

#[test]
fn type_tag_roundtrip() {
    let known = [
        TdfType::VarInt,
        TdfType::String,
        TdfType::Blob,
        TdfType::Group,
        TdfType::List,
        TdfType::Dict,
        TdfType::Union,
        TdfType::VarIntList,
        TdfType::Pair,
        TdfType::Tripple,
        TdfType::Float,
        TdfType::Unknown(0x42),
    ];
    for t in known {
        assert_eq!(TdfType::from(t.value()), t);
    }
    assert_eq!(TdfType::from(0x05u8), TdfType::Dict);
    assert_eq!(TdfType::from(0x0Bu8), TdfType::Unknown(0x0B));
}

#[test]
fn get_text_projections() {
    let group = Tdf::Group(
        false,
        vec![
            LabeledTdf(b"TEXT".to_vec(), TdfType::String, Tdf::String(b"value".to_vec())),
            LabeledTdf(b"NUM1".to_vec(), TdfType::VarInt, Tdf::VarInt(VarInt(5))),
        ],
    );
    assert_eq!(group.get_text(&b"TEXT".to_vec()), Ok(b"value".to_vec()));
    assert_eq!(group.get_text(&b"NUM1".to_vec()), Err(TdfError::InvalidType));
    assert_eq!(group.get_text(&b"GONE".to_vec()), Err(TdfError::MissingLabel));
    let not_group = Tdf::VarInt(VarInt(1));
    assert_eq!(not_group.get_text(&b"TEXT".to_vec()), Err(TdfError::NotGroup));
}
