//! Edge cases of the tagged value model: unrecognized type tags, counts
//! in non-minimal form, truncation inside a value, and conversions.

use tdf_codec::tdf::{LabeledTdf, Readable, Tdf, TdfError, TdfType, Writeable};
use tdf_codec::varint::VarInt;

#[test]
fn unknown_type_parses_with_no_body() {
    // a labeled value with a tag this codec does not know: the header is
    // consumed, the body is empty
    let bytes = vec![0xD2u8, 0x5C, 0xF4, 0x20];
    let mut pos = 0usize;
    let l = LabeledTdf::read(&bytes, &mut pos).expect("decode failed");
    assert_eq!(l.0, b"TEST".to_vec());
    assert_eq!(l.1, TdfType::Unknown(0x20));
    assert_eq!(l.2, Tdf::Unknown);
    assert_eq!(pos, 4);
}

#[test]
fn unknown_elements_roundtrip_inside_list() {
    let v = Tdf::List(TdfType::Unknown(0x42), vec![Tdf::Unknown, Tdf::Unknown]);
    let mut bytes = Vec::new();
    v.write(&mut bytes);
    assert_eq!(bytes, vec![0x42u8, 2]);
    let mut pos = 0usize;
    let back = Tdf::read(&bytes, &mut pos, &TdfType::List).expect("decode failed");
    assert_eq!(back, v);
    assert_eq!(pos, 2);
}

#[test]
fn list_accepts_non_minimal_count() {
    // the element count zero spelled with a continuation byte
    let bytes = vec![0x00u8, 0x80, 0x00];
    let mut pos = 0usize;
    let v = Tdf::read(&bytes, &mut pos, &TdfType::List).expect("decode failed");
    assert_eq!(v, Tdf::List(TdfType::VarInt, Vec::new()));
    assert_eq!(pos, 3);
}

#[test]
fn truncated_values_fail() {
    // a string announcing four bytes of text that never arrive
    let bytes = vec![0x05u8, b'a'];
    let mut pos = 0usize;
    assert_eq!(Tdf::read(&bytes, &mut pos, &TdfType::String), Err(TdfError::Truncated));

    // a blob announcing three bytes with only two present
    let bytes = vec![0x03u8, 1, 2];
    let mut pos = 0usize;
    assert_eq!(Tdf::read(&bytes, &mut pos, &TdfType::Blob), Err(TdfError::Truncated));

    // a group that never reaches its terminator
    let child = LabeledTdf(b"NUM1".to_vec(), TdfType::VarInt, Tdf::VarInt(VarInt(1)));
    let v = Tdf::Group(false, vec![child]);
    let mut bytes = Vec::new();
    v.write(&mut bytes);
    let cut: Vec<u8> = bytes[0..bytes.len() - 1].to_vec();
    let mut pos = 0usize;
    assert_eq!(Tdf::read(&cut, &mut pos, &TdfType::Group), Err(TdfError::Truncated));

    // a pair missing its second integer
    let bytes = vec![0x01u8];
    let mut pos = 0usize;
    assert_eq!(Tdf::read(&bytes, &mut pos, &TdfType::Pair), Err(TdfError::Truncated));

    // a float with only three of its four bytes
    let bytes = vec![0x3Fu8, 0xC0, 0x00];
    let mut pos = 0usize;
    assert_eq!(Tdf::read(&bytes, &mut pos, &TdfType::Float), Err(TdfError::Truncated));
}

#[test]
fn labeled_header_too_short_fails() {
    let bytes = vec![0xD2u8, 0x5C, 0xF4];
    let mut pos = 0usize;
    assert_eq!(LabeledTdf::read(&bytes, &mut pos), Err(TdfError::Truncated));
}

#[test]
fn labeled_roundtrip_through_trait() {
    let l = LabeledTdf(b"BLOB".to_vec(), TdfType::Blob, Tdf::Blob(vec![7u8, 7, 7]));
    let mut bytes = Vec::new();
    l.write(&mut bytes);
    let mut pos = 0usize;
    let back = LabeledTdf::read(&bytes, &mut pos).expect("decode failed");
    assert_eq!(back, l);
    assert_eq!(pos, bytes.len());
}

#[test]
fn varint_from_count() {
    let v = VarInt::from(17usize);
    assert_eq!(v, VarInt(17));
}

#[test]
fn label_alphabet_bounds() {
    // the lowest and highest supported characters survive the trip
    let label = vec![0x21u8, 0x5F, 0x21, 0x5F];
    let tag = tdf_codec::label::label_to_tag(&label);
    let back = tdf_codec::label::tag_to_label(tag[0], tag[1], tag[2]);
    assert_eq!(back, label);
}
