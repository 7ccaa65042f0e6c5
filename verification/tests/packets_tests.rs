use obsidium_codec::error::ProtocolError;
use obsidium_codec::packets::{HandshakePacket, LegacyServerListPingPacket, NextState};
use obsidium_codec::wire::{McString, VarInt};

#[test]
fn handshake_round_trip() {
    let packet = HandshakePacket {
        protocol_version: VarInt(763),
        server_address: McString(String::from("localhost")),
        server_port: 25565,
        next_state: VarInt(2),
    };
    let mut out = Vec::new();
    packet.write(&mut out).unwrap();
    let (back, pos) = HandshakePacket::read(&out, 0).unwrap();
    assert_eq!(pos, out.len());
    assert_eq!(back.protocol_version, VarInt(763));
    assert_eq!(back.server_address.0, "localhost");
    assert_eq!(back.server_port, 25565);
    assert_eq!(back.next_state, VarInt(2));
}

#[test]
fn handshake_wire_layout() {
    let packet = HandshakePacket {
        protocol_version: VarInt(763),
        server_address: McString(String::from("hi")),
        server_port: 25565,
        next_state: VarInt(2),
    };
    let mut out = Vec::new();
    packet.write(&mut out).unwrap();
    assert_eq!(
        out,
        vec![
            0xfb, 0x05, // protocol version 763 as a VarInt
            0x02, b'h', b'i', // length-prefixed address
            0x63, 0xdd, // port 25565, big-endian, not a VarInt
            0x02, // next state
        ]
    );
}

#[test]
fn handshake_out_of_range_state_reads_but_does_not_convert() {
    let packet = HandshakePacket {
        protocol_version: VarInt(763),
        server_address: McString(String::from("localhost")),
        server_port: 25565,
        next_state: VarInt(4),
    };
    let mut out = Vec::new();
    packet.write(&mut out).unwrap();
    // The raw read succeeds even though 4 names no state.
    let (back, _) = HandshakePacket::read(&out, 0).unwrap();
    assert_eq!(back.next_state, VarInt(4));
    // The separate interpretation step is where it fails.
    assert_eq!(
        NextState::try_from_varint(back.next_state),
        Err(ProtocolError::InvalidNextState(4))
    );
}

#[test]
fn handshake_truncated_fails() {
    let packet = HandshakePacket {
        protocol_version: VarInt(763),
        server_address: McString(String::from("localhost")),
        server_port: 25565,
        next_state: VarInt(2),
    };
    let mut out = Vec::new();
    packet.write(&mut out).unwrap();
    out.truncate(out.len() - 3);
    assert!(matches!(
        HandshakePacket::read(&out, 0),
        Err(ProtocolError::UnexpectedEnd)
    ));
}

#[test]
fn next_state_conversions() {
    assert_eq!(NextState::try_from_varint(VarInt(1)), Ok(NextState::Status));
    assert_eq!(NextState::try_from_varint(VarInt(2)), Ok(NextState::Login));
    assert_eq!(
        NextState::try_from_varint(VarInt(3)),
        Ok(NextState::Transfer)
    );
    assert_eq!(
        NextState::try_from_varint(VarInt(0)),
        Err(ProtocolError::InvalidNextState(0))
    );
    assert_eq!(NextState::Status.to_varint(), VarInt(1));
    assert_eq!(NextState::Login.to_varint(), VarInt(2));
    assert_eq!(NextState::Transfer.to_varint(), VarInt(3));
}

#[test]
fn packet_ids_are_fixed() {
    assert_eq!(HandshakePacket::ID, 0x00);
    assert_eq!(LegacyServerListPingPacket::ID, 0xfe);
}

#[test]
fn legacy_ping_round_trip() {
    let packet = LegacyServerListPingPacket::new();
    assert_eq!(packet.payload, 1);
    let mut out = Vec::new();
    packet.write(&mut out);
    assert_eq!(out, vec![0x01]);
    let (back, pos) = LegacyServerListPingPacket::read(&out, 0).unwrap();
    assert_eq!(back.payload, 1);
    assert_eq!(pos, 1);
}

#[test]
fn legacy_ping_default_is_new() {
    let packet: LegacyServerListPingPacket = Default::default();
    assert_eq!(packet, LegacyServerListPingPacket::new());
}

#[test]
fn legacy_ping_read_empty_fails() {
    let empty: Vec<u8> = Vec::new();
    assert_eq!(
        LegacyServerListPingPacket::read(&empty, 0),
        Err(ProtocolError::UnexpectedEnd)
    );
}
