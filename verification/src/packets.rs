//! The handshaking packets: the first messages of every connection.
//!
//! The handshake carries the protocol version, the server address and
//! port, and the requested next state, in that fixed order. Its raw
//! read performs no range check on the next state; a separate, explicit
//! conversion maps the raw integer to the enumerated states and is the
//! only step that rejects an out-of-range value. The legacy server-list
//! ping is a one-byte probe sent by pre-modern clients in place of a
//! framed packet.

use vstd::prelude::*;
use vstd::utf8::encode_utf8;

use crate::encode::{be16, push_be16};
use crate::error::ProtocolError;
use crate::wire::{
    read_mcstring, read_unsigned_byte, read_varint, spec_i32_of_u32, spec_mcstring_bytes,
    spec_read_mcstring, spec_read_varint, spec_varint, write_mcstring,
    write_unsigned_byte, write_varint, McString, VarInt,
};

verus! {

/// Handshake packet sent by a client to open a connection.
#[derive(Debug, PartialEq)]
pub struct HandshakePacket {
    /// Protocol version used by the client.
    pub protocol_version: VarInt,
    /// Server address, a hostname or address text.
    pub server_address: McString,
    /// Server port, written as a two-byte big-endian integer, not a
    /// VarInt.
    pub server_port: u16,
    /// Requested next state, raw and unvalidated at read time.
    pub next_state: VarInt,
}

/// The mathematical shape of a handshake packet.
pub struct HandshakeModel {
    pub protocol_version: i32,
    pub server_address: Seq<char>,
    pub server_port: u16,
    pub next_state: i32,
}

impl View for HandshakePacket {
    type V = HandshakeModel;

    open spec fn view(&self) -> HandshakeModel {
        HandshakeModel {
            protocol_version: self.protocol_version.0,
            server_address: self.server_address.0@,
            server_port: self.server_port,
            next_state: self.next_state.0,
        }
    }
}

/// The wire bytes of a handshake: VarInt protocol version,
/// length-prefixed address, two-byte big-endian port, VarInt next
/// state.
pub open spec fn spec_handshake_bytes(m: HandshakeModel) -> Seq<u8> {
    spec_varint(m.protocol_version) + spec_mcstring_bytes(m.server_address) + be16(m.server_port)
        + spec_varint(m.next_state)
}

/// Reading a handshake from the front of a byte source: the packet's
/// model and the count of bytes consumed.
pub open spec fn spec_read_handshake(bytes: Seq<u8>) -> Option<(HandshakeModel, int)> {
    match spec_read_varint(bytes) {
        Some((u1, n1)) => match spec_read_mcstring(bytes.skip(n1)) {
            Some((addr, n2)) => if n1 + n2 + 2 <= bytes.len() {
                let port = (bytes[n1 + n2] as u16 as int * 0x100 + bytes[n1 + n2 + 1] as int)
                    as u16;
                match spec_read_varint(bytes.skip(n1 + n2 + 2)) {
                    Some((u4, n4)) => Some(
                        (
                            HandshakeModel {
                                protocol_version: spec_i32_of_u32(u1),
                                server_address: addr,
                                server_port: port,
                                next_state: spec_i32_of_u32(u4),
                            },
                            n1 + n2 + 2 + n4,
                        ),
                    ),
                    None => None,
                }
            } else {
                None
            },
            None => None,
        },
        None => None,
    }
}

impl HandshakePacket {
    /// Numeric identifier of the handshake packet.
    pub const ID: i32 = 0x00;

    /// Read a handshake from `pos`: version, address, port and raw
    /// next state, in that order, with no range check on the next
    /// state.
    pub fn read(data: &[u8], pos: usize) -> (r: Result<(HandshakePacket, usize), ProtocolError>)
        requires
            pos <= data@.len(),
        ensures
            match r {
                Ok((p, newpos)) => {
                    &&& spec_read_handshake(data@.skip(pos as int)) matches Some((m, n)) && p@ == m
                        && newpos == pos + n
                    &&& pos < newpos <= data@.len()
                },
                Err(_) => spec_read_handshake(data@.skip(pos as int)) is None,
            },
    {
        let (protocol_version, p1) = match read_varint(data, pos) {
            Ok(r) => r,
            Err(e) => {
                return Err(e);
            },
        };
        proof {
            assert(data@.skip(pos as int).skip(p1 - pos) =~= data@.skip(p1 as int));
        }
        let (server_address, p2) = match read_mcstring(data, p1) {
            Ok(r) => r,
            Err(e) => {
                return Err(e);
            },
        };
        if data.len() - p2 < 2 {
            return Err(ProtocolError::UnexpectedEnd);
        }
        let hi = data[p2];
        let lo = data[p2 + 1];
        let server_port: u16 = (hi as u16) * 0x100 + (lo as u16);
        proof {
            assert(data@.skip(pos as int).skip(p2 + 2 - pos) =~= data@.skip(p2 as int + 2));
            assert(data@.skip(pos as int)[p2 - pos] == data@[p2 as int]);
            assert(data@.skip(pos as int)[p2 + 1 - pos] == data@[p2 as int + 1]);
        }
        let (next_state, p3) = match read_varint(data, p2 + 2) {
            Ok(r) => r,
            Err(e) => {
                return Err(e);
            },
        };
        Ok(
            (
                HandshakePacket { protocol_version, server_address, server_port, next_state },
                p3,
            ),
        )
    }

    /// Write the handshake's wire form. Fails only when the address's
    /// byte length cannot fit its VarInt prefix.
    pub fn write(&self, out: &mut Vec<u8>) -> (r: Result<(), ProtocolError>)
        ensures
            match r {
                Ok(_) => encode_utf8(self.server_address.0@).len() <= 0x7fff_ffff && final(out)@
                    == old(out)@ + spec_handshake_bytes(self@),
                Err(e) => encode_utf8(self.server_address.0@).len() > 0x7fff_ffff && e
                    == ProtocolError::ValueTooLarge,
            },
    {
        write_varint(out, self.protocol_version);
        match write_mcstring(out, &self.server_address) {
            Ok(_) => {},
            Err(e) => {
                return Err(e);
            },
        }
        push_be16(out, self.server_port);
        write_varint(out, self.next_state);
        proof {
            assert(out@ =~= old(out)@ + spec_handshake_bytes(self@));
        }
        Ok(())
    }
}

/// Writing a handshake and reading the bytes back, whatever follows
/// them, reproduces every field and consumes exactly the packet.
pub proof fn lemma_handshake_round_trip(m: HandshakeModel, rest: Seq<u8>)
    requires
        encode_utf8(m.server_address).len() <= 0x7fff_ffff,
    ensures
        spec_read_handshake(spec_handshake_bytes(m) + rest) == Some(
            (m, spec_handshake_bytes(m).len() as int),
        ),
{
    let v1 = spec_varint(m.protocol_version);
    let sb = spec_mcstring_bytes(m.server_address);
    let pb = be16(m.server_port);
    let v4 = spec_varint(m.next_state);
    let whole = spec_handshake_bytes(m) + rest;
    crate::wire::lemma_varint_round_trip(m.protocol_version, sb + pb + v4 + rest);
    assert(whole =~= v1 + (sb + pb + v4 + rest));
    let n1 = v1.len() as int;
    assert(whole.skip(n1) =~= sb + (pb + v4 + rest));
    crate::wire::lemma_mcstring_round_trip(m.server_address, pb + v4 + rest);
    let n2 = sb.len() as int;
    assert(whole.skip(n1 + n2 + 2) =~= v4 + rest);
    crate::wire::lemma_varint_round_trip(m.next_state, rest);
    assert(whole[n1 + n2] == pb[0]);
    assert(whole[n1 + n2 + 1] == pb[1]);
    assert((m.server_port as int / 0x100) % 0x100 * 0x100 + m.server_port as int % 0x100
        == m.server_port as int) by (nonlinear_arith);
}

/// The states a client may request after the handshake.
#[derive(Debug, Clone, Copy, PartialEq, Eq, Structural)]
pub enum NextState {
    /// Status request, the server-list ping.
    Status,
    /// Login.
    Login,
    /// Transfer.
    Transfer,
}

impl NextState {
    /// The raw wire integer of this state.
    pub open spec fn spec_raw(self) -> i32 {
        match self {
            NextState::Status => 1,
            NextState::Login => 2,
            NextState::Transfer => 3,
        }
    }

    /// The strict interpretation step: map a raw next-state integer to
    /// its enumerated state. Exactly the raw values one to three are
    /// accepted; everything else is rejected here and only here.
    pub fn try_from_varint(value: VarInt) -> (r: Result<NextState, ProtocolError>)
        ensures
            match r {
                Ok(s) => s.spec_raw() == value.0,
                Err(e) => !(1 <= value.0 <= 3) && e == ProtocolError::InvalidNextState(value.0),
            },
    {
        match value.0 {
            1 => Ok(NextState::Status),
            2 => Ok(NextState::Login),
            3 => Ok(NextState::Transfer),
            _ => Err(ProtocolError::InvalidNextState(value.0)),
        }
    }

    /// The raw wire form of this state.
    pub fn to_varint(self) -> (r: VarInt)
        ensures
            r.0 == self.spec_raw(),
    {
        match self {
            NextState::Status => VarInt(1),
            NextState::Login => VarInt(2),
            NextState::Transfer => VarInt(3),
        }
    }
}

/// Legacy server-list ping, a single unframed payload byte; the packet
/// identifier byte itself is handled by the connection layer that
/// tells this probe apart from a standard frame.
#[derive(Debug, Clone, Copy, PartialEq, Eq, Structural)]
pub struct LegacyServerListPingPacket {
    /// Always one.
    pub payload: u8,
}

impl LegacyServerListPingPacket {
    /// Numeric identifier of the legacy ping packet.
    pub const ID: i32 = 0xFE;

    /// A fresh probe with the fixed payload byte.
    pub fn new() -> (r: Self)
        ensures
            r.payload == 1,
    {
        Self { payload: 1 }
    }

    /// Read the probe's single payload byte.
    pub fn read(data: &[u8], pos: usize) -> (r: Result<
        (LegacyServerListPingPacket, usize),
        ProtocolError,
    >)
        ensures
            match r {
                Ok((p, newpos)) => pos < data@.len() && p.payload == data@[pos as int] && newpos
                    == pos + 1,
                Err(e) => pos >= data@.len() && e == ProtocolError::UnexpectedEnd,
            },
    {
        let (payload, newpos) = match read_unsigned_byte(data, pos) {
            Ok(r) => r,
            Err(e) => {
                return Err(e);
            },
        };
        Ok((LegacyServerListPingPacket { payload }, newpos))
    }

    /// Write the probe's single payload byte.
    pub fn write(&self, out: &mut Vec<u8>)
        ensures
            final(out)@ == old(out)@ + seq![self.payload],
    {
        write_unsigned_byte(out, self.payload);
    }
}

impl Default for LegacyServerListPingPacket {
    /// The default probe carries the fixed payload byte.
    fn default() -> (r: Self)
        ensures
            r.payload == 1,
    {
        Self::new()
    }
}

} // verus!
