//! Tests of the packet framing: header fields, the length extension, the
//! truncation contract on every proper prefix, and the end-to-end
//! scenario of a group carried through a packet.

use tdf_codec::packet::{read_packet, read_packet_contents, Packet};
use tdf_codec::tdf::{LabeledTdf, Tdf, TdfError, TdfType, Writeable};
use tdf_codec::varint::VarInt;

fn sample_packet() -> Packet {
    Packet {
        component: 0x0101,
        command: 0x0002,
        error: 0,
        qtype: 0,
        id: 7,
        content: vec![0xD2, 0x5C, 0xF4, 0x01, 0x03, b'h', b'i', 0x00],
    }
}

#[test]
fn packet_roundtrip() {
    let p = sample_packet();
    let mut bytes = Vec::new();
    p.write(&mut bytes);
    let mut pos = 0usize;
    let back = read_packet(&bytes, &mut pos).expect("decode failed");
    assert_eq!(back, p);
    assert_eq!(pos, bytes.len());
}

#[test]
fn packet_header_layout() {
    let p = sample_packet();
    let mut bytes = Vec::new();
    p.write(&mut bytes);
    // base length, component, command, error, qtype, id, then content
    assert_eq!(
        &bytes[0..12],
        &[0x00u8, 0x08, 0x01, 0x01, 0x00, 0x02, 0x00, 0x00, 0x00, 0x00, 0x00, 0x07]
    );
    assert_eq!(&bytes[12..], &p.content[..]);
}

#[test]
fn packet_every_proper_prefix_is_truncated() {
    let p = sample_packet();
    let mut bytes = Vec::new();
    p.write(&mut bytes);
    for k in 0..bytes.len() {
        let prefix: Vec<u8> = bytes[0..k].to_vec();
        let mut pos = 0usize;
        assert_eq!(read_packet(&prefix, &mut pos), Err(TdfError::Truncated));
    }
}

#[test]
fn packet_length_extension() {
    // qtype bit 0x10 set: content length is base plus extension times 2^16
    let clen = 0x1FFFFusize;
    let mut bytes: Vec<u8> = vec![
        0xFF, 0xFF, // base length 0xFFFF
        0x00, 0x01, // component
        0x00, 0x02, // command
        0x00, 0x00, // error
        0x00, 0x10, // qtype with the extension bit
        0x00, 0x05, // id
        0x00, 0x01, // length extension 0x0001
    ];
    bytes.resize(14 + clen, 0xAB);
    let mut pos = 0usize;
    let p = read_packet(&bytes, &mut pos).expect("decode failed");
    assert_eq!(p.content.len(), clen);
    assert_eq!(p.qtype, 0x10);
    assert_eq!(pos, bytes.len());

    // one byte short of the announced length is a truncation
    let short: Vec<u8> = bytes[0..bytes.len() - 1].to_vec();
    let mut pos = 0usize;
    assert_eq!(read_packet(&short, &mut pos), Err(TdfError::Truncated));
}

#[test]
fn packet_extension_roundtrip_through_writer() {
    let p = Packet {
        component: 1,
        command: 2,
        error: 3,
        qtype: 0x10,
        id: 4,
        content: vec![0x55; 0x10003],
    };
    let mut bytes = Vec::new();
    p.write(&mut bytes);
    assert_eq!(&bytes[0..2], &[0x00u8, 0x03]);
    assert_eq!(&bytes[12..14], &[0x00u8, 0x01]);
    let mut pos = 0usize;
    let back = read_packet(&bytes, &mut pos).expect("decode failed");
    assert_eq!(back, p);
}

#[test]
fn end_to_end_group_scenario() {
    // encode two labeled values, carry them as a packet's content, and
    // read the content back as a stream
    let items = [
        LabeledTdf(b"TEST".to_vec(), TdfType::String, Tdf::String(b"hi".to_vec())),
        LabeledTdf(b"NUM1".to_vec(), TdfType::VarInt, Tdf::VarInt(VarInt(5))),
    ];
    let mut content = Vec::new();
    items[0].write(&mut content);
    items[1].write(&mut content);
    assert_eq!(
        content,
        vec![
            0xD2u8, 0x5C, 0xF4, 0x01, 0x03, b'h', b'i', 0x00, // TEST: "hi"
            0xBB, 0x5B, 0x51, 0x00, 0x05, // NUM1: 5
        ]
    );
    let packet = Packet {
        component: 4,
        command: 1,
        error: 0,
        qtype: 0,
        id: 1,
        content,
    };
    let decoded = read_packet_contents(&packet).expect("decode failed");
    assert_eq!(decoded.len(), 2);
    assert_eq!(decoded[0].0, b"TEST".to_vec());
    assert_eq!(decoded[0].1, TdfType::String);
    assert_eq!(decoded[0].2, Tdf::String(b"hi".to_vec()));
    assert_eq!(decoded[1].0, b"NUM1".to_vec());
    assert_eq!(decoded[1].1, TdfType::VarInt);
    assert_eq!(decoded[1].2, Tdf::VarInt(VarInt(5)));
}

#[test]
fn packet_contents_rejects_malformed_payload() {
    let packet = Packet {
        component: 0,
        command: 0,
        error: 0,
        qtype: 0,
        id: 0,
        // a header announcing a string whose bytes never arrive
        content: vec![0xD2, 0x5C, 0xF4, 0x01, 0x60],
    };
    assert!(read_packet_contents(&packet).is_err());
}

#[test]
fn empty_packet_contents() {
    let packet = Packet {
        component: 0,
        command: 0,
        error: 0,
        qtype: 0,
        id: 0,
        content: Vec::new(),
    };
    let decoded = read_packet_contents(&packet).expect("decode failed");
    assert_eq!(decoded.len(), 0);
}
