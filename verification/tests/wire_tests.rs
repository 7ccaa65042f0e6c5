use obsidium_codec::error::ProtocolError;
use obsidium_codec::wire::{
    read_mcstring, read_unsigned_byte, read_varint, write_mcstring, write_unsigned_byte,
    write_varint, McString, VarInt,
};

fn varint_bytes(x: i32) -> Vec<u8> {
    let mut out = Vec::new();
    write_varint(&mut out, VarInt(x));
    out
}

#[test]
fn varint_known_encodings() {
    assert_eq!(varint_bytes(0), vec![0x00]);
    assert_eq!(varint_bytes(1), vec![0x01]);
    assert_eq!(varint_bytes(127), vec![0x7f]);
    assert_eq!(varint_bytes(128), vec![0x80, 0x01]);
    assert_eq!(varint_bytes(255), vec![0xff, 0x01]);
    assert_eq!(varint_bytes(25565), vec![0xdd, 0xc7, 0x01]);
    assert_eq!(varint_bytes(2147483647), vec![0xff, 0xff, 0xff, 0xff, 0x07]);
    assert_eq!(varint_bytes(-1), vec![0xff, 0xff, 0xff, 0xff, 0x0f]);
    assert_eq!(varint_bytes(-2147483648), vec![0x80, 0x80, 0x80, 0x80, 0x08]);
}

#[test]
fn varint_round_trip_many() {
    let samples: Vec<i32> = vec![
        0, 1, -1, 2, 127, 128, 129, 255, 256, 16383, 16384, 25565, 763, 2097151, 2097152,
        2147483647, -2147483648, -2, -128, -32768, 1000000,
    ];
    for x in samples {
        let enc = varint_bytes(x);
        assert!(enc.len() >= 1 && enc.len() <= 5);
        let (v, pos) = read_varint(&enc, 0).unwrap();
        assert_eq!(v.0, x);
        assert_eq!(pos, enc.len());
    }
}

#[test]
fn varint_round_trip_with_suffix() {
    let mut enc = varint_bytes(300);
    let n = enc.len();
    enc.push(0xab);
    enc.push(0xcd);
    let (v, pos) = read_varint(&enc, 0).unwrap();
    assert_eq!(v.0, 300);
    assert_eq!(pos, n);
}

#[test]
fn varint_sixth_continuation_byte_fails() {
    let data = vec![0x80u8, 0x80, 0x80, 0x80, 0x80, 0x01];
    assert_eq!(read_varint(&data, 0), Err(ProtocolError::VarIntTooLong));
}

#[test]
fn varint_truncated_fails() {
    let data = vec![0x80u8, 0x80];
    assert_eq!(read_varint(&data, 0), Err(ProtocolError::UnexpectedEnd));
    let empty: Vec<u8> = Vec::new();
    assert_eq!(read_varint(&empty, 0), Err(ProtocolError::UnexpectedEnd));
}

#[test]
fn varint_nonminimal_encoding_still_reads() {
    // 0 written with a padding continuation byte still decodes to 0,
    // but the write path never produces this form.
    let data = vec![0x80u8, 0x00];
    let (v, pos) = read_varint(&data, 0).unwrap();
    assert_eq!(v.0, 0);
    assert_eq!(pos, 2);
    assert_ne!(varint_bytes(0), data);
}

#[test]
fn mcstring_round_trip() {
    let mut out = Vec::new();
    write_mcstring(&mut out, &McString(String::from("localhost"))).unwrap();
    assert_eq!(out[0], 9);
    assert_eq!(&out[1..], b"localhost");
    let (m, pos) = read_mcstring(&out, 0).unwrap();
    assert_eq!(m.0, "localhost");
    assert_eq!(pos, out.len());
}

#[test]
fn mcstring_empty_round_trip() {
    let mut out = Vec::new();
    write_mcstring(&mut out, &McString(String::new())).unwrap();
    assert_eq!(out, vec![0x00]);
    let (m, pos) = read_mcstring(&out, 0).unwrap();
    assert_eq!(m.0, "");
    assert_eq!(pos, 1);
}

#[test]
fn mcstring_does_not_over_read() {
    // Declared length 3, followed by extra bytes: exactly 4 bytes are
    // consumed.
    let data = vec![0x03u8, b'a', b'b', b'c', 0xff, 0xff];
    let (m, pos) = read_mcstring(&data, 0).unwrap();
    assert_eq!(m.0, "abc");
    assert_eq!(pos, 4);
}

#[test]
fn mcstring_insufficient_bytes_fails() {
    let data = vec![0x05u8, b'a', b'b'];
    assert_eq!(read_mcstring(&data, 0), Err(ProtocolError::UnexpectedEnd));
}

#[test]
fn mcstring_negative_length_fails() {
    let mut data = Vec::new();
    write_varint(&mut data, VarInt(-1));
    data.push(b'a');
    assert_eq!(read_mcstring(&data, 0), Err(ProtocolError::NegativeLength));
}

#[test]
fn mcstring_multibyte_utf8_round_trip() {
    // A two-byte character: the declared length counts bytes, not
    // characters, and decoding really interprets them.
    let mut out = Vec::new();
    write_mcstring(&mut out, &McString(String::from("caf\u{e9}"))).unwrap();
    assert_eq!(out, vec![0x05, b'c', b'a', b'f', 0xc3, 0xa9]);
    let (m, pos) = read_mcstring(&out, 0).unwrap();
    assert_eq!(m.0, "caf\u{e9}");
    assert_eq!(m.0.chars().count(), 4);
    assert_eq!(pos, 6);
}

#[test]
fn mcstring_invalid_utf8_fails() {
    let data = vec![0x02u8, 0xff, 0xfe];
    assert_eq!(read_mcstring(&data, 0), Err(ProtocolError::InvalidUtf8));
}

#[test]
fn unsigned_byte_round_trip() {
    let mut out = Vec::new();
    write_unsigned_byte(&mut out, 0xfe);
    assert_eq!(out, vec![0xfe]);
    let (b, pos) = read_unsigned_byte(&out, 0).unwrap();
    assert_eq!(b, 0xfe);
    assert_eq!(pos, 1);
    assert_eq!(read_unsigned_byte(&out, 1), Err(ProtocolError::UnexpectedEnd));
}
