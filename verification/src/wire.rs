//! Wire primitive codecs shared by all packets.
//!
//! A VarInt is a signed 32-bit integer in one to five bytes, seven
//! payload bits per byte, least-significant group first, with the high
//! bit of each byte flagging continuation. The write path emits the
//! minimal encoding; the read path rejects a fifth byte that still
//! flags continuation. A length-prefixed string is a VarInt byte length
//! followed by that many UTF-8 bytes, and reading it never consumes
//! more bytes than declared nor runs past the source.

use vstd::prelude::*;
use vstd::utf8::{decode_utf8, encode_utf8, valid_utf8};

use crate::error::ProtocolError;

verus! {

/// A signed 32-bit integer with a variable-length wire form.
#[derive(Debug, Clone, Copy, PartialEq, Eq, Structural)]
pub struct VarInt(pub i32);

/// The unsigned 32-bit value carrying a signed int's bits.
pub open spec fn spec_u32_of_i32(x: i32) -> u32 {
    if x >= 0 {
        x as u32
    } else {
        (x + 0x1_0000_0000) as u32
    }
}

/// The signed 32-bit value whose bits an unsigned int carries.
pub open spec fn spec_i32_of_u32(x: u32) -> i32 {
    if x <= 0x7fff_ffff {
        x as i32
    } else {
        (x - 0x1_0000_0000) as i32
    }
}

/// The minimal variable-length encoding of an unsigned 32-bit value.
pub open spec fn spec_varint_bytes_u32(v: u32) -> Seq<u8>
    decreases v via spec_varint_bytes_u32_decreases
{
    if v < 0x80 {
        seq![v as u8]
    } else {
        seq![((v % 0x80) + 0x80) as u8] + spec_varint_bytes_u32(v / 0x80)
    }
}

#[via_fn]
proof fn spec_varint_bytes_u32_decreases(v: u32) {
    assert(v >= 0x80 ==> v / 0x80 < v) by (nonlinear_arith);
}

/// The wire bytes of a VarInt value.
pub open spec fn spec_varint(x: i32) -> Seq<u8> {
    spec_varint_bytes_u32(spec_u32_of_i32(x))
}

/// Reading a variable-length integer whose first byte is the
/// `depth`-th of the encoding: the decoded unsigned value and the
/// count of bytes consumed, or nothing when the source ends early or a
/// fifth byte still flags continuation.
pub open spec fn spec_read_varint_rec(bytes: Seq<u8>, depth: int) -> Option<(u32, int)>
    decreases 5 - depth when depth <= 4
{
    if bytes.len() == 0 {
        None
    } else {
        let b = bytes[0];
        if b < 0x80 {
            Some((b as u32, 1))
        } else if depth == 4 {
            None
        } else {
            match spec_read_varint_rec(bytes.skip(1), depth + 1) {
                Some((hi, n)) => Some(
                    ((((b as int % 0x80) + hi as int * 0x80) % 0x1_0000_0000) as u32, n + 1),
                ),
                None => None,
            }
        }
    }
}

/// Reading a variable-length integer from the front of a byte source.
pub open spec fn spec_read_varint(bytes: Seq<u8>) -> Option<(u32, int)> {
    spec_read_varint_rec(bytes, 0)
}

/// True when the first `5 - depth` bytes all flag continuation, which
/// makes the encoding overlong.
pub open spec fn spec_varint_overlong_rec(bytes: Seq<u8>, depth: int) -> bool {
    bytes.len() >= 5 - depth && forall|i: int| 0 <= i < 5 - depth ==> bytes[i] >= 0x80
}

/// True when a fifth continuation-flagged byte makes the encoding
/// overlong.
pub open spec fn spec_varint_overlong(bytes: Seq<u8>) -> bool {
    spec_varint_overlong_rec(bytes, 0)
}

/// Read one VarInt, recursing one byte at a time.
fn read_varint_from(data: &[u8], pos: usize, depth: usize) -> (r: Result<(u32, usize), ProtocolError>)
    requires
        pos <= data@.len(),
        depth <= 4,
    ensures
        match r {
            Ok((v, n)) => {
                &&& spec_read_varint_rec(data@.skip(pos as int), depth as int) == Some(
                    (v, n as int),
                )
                &&& 1 <= n <= 5 - depth
                &&& pos + n <= data@.len()
            },
            Err(e) => {
                &&& spec_read_varint_rec(data@.skip(pos as int), depth as int) is None
                &&& e == (if spec_varint_overlong_rec(data@.skip(pos as int), depth as int) {
                    ProtocolError::VarIntTooLong
                } else {
                    ProtocolError::UnexpectedEnd
                })
            },
        },
    decreases 5 - depth,
{
    if pos >= data.len() {
        return Err(ProtocolError::UnexpectedEnd);
    }
    let b = data[pos];
    if b < 0x80 {
        Ok((b as u32, 1))
    } else if depth == 4 {
        proof {
            assert(spec_varint_overlong_rec(data@.skip(pos as int), 4));
        }
        Err(ProtocolError::VarIntTooLong)
    } else {
        proof {
            assert(data@.skip(pos as int).skip(1) =~= data@.skip(pos as int + 1));
        }
        match read_varint_from(data, pos + 1, depth + 1) {
            Ok((hi, n)) => {
                let combined: u64 = ((b % 0x80) as u64) + (hi as u64) * 0x80;
                let value: u32 = (combined % 0x1_0000_0000) as u32;
                Ok((value, n + 1))
            },
            Err(e) => {
                proof {
                    let s = data@.skip(pos as int);
                    assert(s.skip(1) =~= data@.skip(pos as int + 1));
                    lemma_overlong_step(s, depth as int);
                }
                Err(e)
            },
        }
    }
}

/// A continuation-flagged first byte passes the overlong question on
/// to the rest of the encoding.
proof fn lemma_overlong_step(s: Seq<u8>, depth: int)
    requires
        0 <= depth < 4,
        s.len() >= 1,
        s[0] >= 0x80,
    ensures
        spec_varint_overlong_rec(s, depth) == spec_varint_overlong_rec(s.skip(1), depth + 1),
{
    let s1 = s.skip(1);
    if spec_varint_overlong_rec(s1, depth + 1) {
        assert forall|i: int| 0 <= i < 5 - depth implies s[i] >= 0x80 by {
            if i > 0 {
                assert(s[i] == s1[i - 1]);
            }
        }
        assert(spec_varint_overlong_rec(s, depth));
    }
    if spec_varint_overlong_rec(s, depth) {
        assert forall|i: int| 0 <= i < 5 - (depth + 1) implies s1[i] >= 0x80 by {
            assert(s1[i] == s[i + 1]);
        }
        assert(spec_varint_overlong_rec(s1, depth + 1));
    }
}

/// Read a VarInt from `pos`, returning it with the position after it.
///
/// Fails when the source ends inside the value, or when a fifth byte
/// still flags continuation.
pub fn read_varint(data: &[u8], pos: usize) -> (r: Result<(VarInt, usize), ProtocolError>)
    requires
        pos <= data@.len(),
    ensures
        match r {
            Ok((v, newpos)) => {
                &&& spec_read_varint(data@.skip(pos as int)) matches Some((u, n))
                    && v.0 == spec_i32_of_u32(u) && newpos == pos + n
                &&& pos < newpos <= data@.len()
            },
            Err(e) => {
                &&& spec_read_varint(data@.skip(pos as int)) is None
                &&& e == (if spec_varint_overlong(data@.skip(pos as int)) {
                    ProtocolError::VarIntTooLong
                } else {
                    ProtocolError::UnexpectedEnd
                })
            },
        },
{
    let dlen: usize = data.len();
    match read_varint_from(data, pos, 0) {
        Ok((u, n)) => {
            proof {
                assert(pos + n <= dlen);
            }
            let x: i32;
            if u <= 0x7fff_ffff {
                x = u as i32;
            } else {
                let wide: i64 = (u as i64) - 0x1_0000_0000i64;
                proof {
                    assert(-0x8000_0000 <= wide < 0);
                }
                x = wide as i32;
            }
            Ok((VarInt(x), pos + n))
        },
        Err(e) => Err(e),
    }
}

/// Append the minimal variable-length encoding of a VarInt.
#[verifier::loop_isolation(false)]
pub fn write_varint(out: &mut Vec<u8>, v: VarInt)
    ensures
        final(out)@ == old(out)@ + spec_varint(v.0),
{
    let mut u: u32 = if v.0 >= 0 {
        v.0 as u32
    } else {
        (((v.0 as i64) + 0x1_0000_0000) as u32)
    };
    loop
        invariant
            out@ + spec_varint_bytes_u32(u) == old(out)@ + spec_varint(v.0),
        decreases u,
    {
        if u < 0x80 {
            out.push(u as u8);
            proof {
                assert(out@ =~= old(out)@ + spec_varint(v.0));
            }
            break ;
        } else {
            let b: u8 = ((u % 0x80) + 0x80) as u8;
            let ghost u_old = u;
            let ghost out_old = out@;
            out.push(b);
            u = u / 0x80;
            proof {
                assert(u < u_old) by (nonlinear_arith)
                    requires
                        u == u_old / 0x80,
                        u_old >= 0x80,
                ;
                assert(spec_varint_bytes_u32(u_old) == seq![b] + spec_varint_bytes_u32(u));
                assert(out@ + spec_varint_bytes_u32(u) =~= out_old + spec_varint_bytes_u32(
                    u_old,
                ));
            }
        }
    }
}

/// The encoding of a value is never longer than five bytes.
proof fn lemma_varint_len(u: u32)
    ensures
        1 <= spec_varint_bytes_u32(u).len() <= 5,
{
    reveal_with_fuel(spec_varint_bytes_u32, 6);
    if u >= 0x80 {
        let u1 = u / 0x80;
        assert(u1 < 0x200_0000) by (nonlinear_arith)
            requires
                u1 == u / 0x80,
        ;
        if u1 >= 0x80 {
            let u2 = u1 / 0x80;
            assert(u2 < 0x4_0000) by (nonlinear_arith)
                requires
                    u1 < 0x200_0000,
                    u2 == u1 / 0x80,
            ;
            if u2 >= 0x80 {
                let u3 = u2 / 0x80;
                assert(u3 < 0x800) by (nonlinear_arith)
                    requires
                        u2 < 0x4_0000,
                        u3 == u2 / 0x80,
                ;
                if u3 >= 0x80 {
                    let u4 = u3 / 0x80;
                    assert(u4 < 0x10) by (nonlinear_arith)
                        requires
                            u3 < 0x800,
                            u4 == u3 / 0x80,
                    ;
                }
            }
        }
    }
}

/// Reading the encoding of `u`, placed ahead of any suffix, yields `u`
/// and consumes exactly the encoding.
proof fn lemma_varint_round_trip_rec(u: u32, rest: Seq<u8>, depth: int)
    requires
        0 <= depth <= 4,
        spec_varint_bytes_u32(u).len() <= 5 - depth,
    ensures
        spec_read_varint_rec(spec_varint_bytes_u32(u) + rest, depth) == Some(
            (u, spec_varint_bytes_u32(u).len() as int),
        ),
    decreases u,
{
    let enc = spec_varint_bytes_u32(u);
    if u < 0x80 {
        assert((enc + rest)[0] == u as u8);
    } else {
        let b: u8 = ((u % 0x80) + 0x80) as u8;
        let u1 = u / 0x80;
        assert(u1 < u) by (nonlinear_arith)
            requires
                u >= 0x80,
                u1 == u / 0x80,
        ;
        assert(enc == seq![b] + spec_varint_bytes_u32(u1));
        assert(spec_varint_bytes_u32(u1).len() >= 1) by {
            if u1 >= 0x80 {
                assert(spec_varint_bytes_u32(u1) == seq![((u1 % 0x80) + 0x80) as u8]
                    + spec_varint_bytes_u32(u1 / 0x80));
            }
        }
        lemma_varint_round_trip_rec(u1, rest, depth + 1);
        assert((enc + rest).skip(1) =~= spec_varint_bytes_u32(u1) + rest);
        assert((enc + rest)[0] == b);
        assert(b as int % 0x80 == u as int % 0x80);
        assert((u as int % 0x80) + (u as int / 0x80) * 0x80 == u as int) by (nonlinear_arith);
    }
}

/// Round trip of the VarInt codec: for every signed 32-bit value, and
/// whatever bytes follow, reading the written encoding yields the same
/// value back and consumes exactly the encoding, which is one to five
/// bytes long.
pub proof fn lemma_varint_round_trip(x: i32, rest: Seq<u8>)
    ensures
        1 <= spec_varint(x).len() <= 5,
        spec_read_varint(spec_varint(x) + rest) == Some(
            (spec_u32_of_i32(x), spec_varint(x).len() as int),
        ),
        spec_i32_of_u32(spec_u32_of_i32(x)) == x,
{
    lemma_varint_len(spec_u32_of_i32(x));
    lemma_varint_round_trip_rec(spec_u32_of_i32(x), rest, 0);
}

proof fn lemma_varint_minimal_u32(u: u32)
    ensures
        ({
            let enc = spec_varint_bytes_u32(u);
            &&& enc.len() >= 1
            &&& enc[enc.len() - 1] < 0x80
            &&& forall|i: int| 0 <= i < enc.len() - 1 ==> enc[i] >= 0x80
            &&& enc.len() > 1 ==> enc[enc.len() - 1] != 0
        }),
    decreases u,
{
    let enc = spec_varint_bytes_u32(u);
    if u >= 0x80 {
        let u1 = u / 0x80;
        let b: u8 = ((u % 0x80) + 0x80) as u8;
        assert(1 <= u1 < u) by (nonlinear_arith)
            requires
                u >= 0x80,
                u1 == u / 0x80,
        ;
        lemma_varint_minimal_u32(u1);
        let enc1 = spec_varint_bytes_u32(u1);
        assert(enc == seq![b] + enc1);
        assert(enc[enc.len() - 1] == enc1[enc1.len() - 1]);
        assert forall|i: int| 0 <= i < enc.len() - 1 implies enc[i] >= 0x80 by {
            if i > 0 {
                assert(enc[i] == enc1[i - 1]);
            }
        }
        if enc1.len() == 1 {
            assert(enc1[0] == u1 as u8);
        }
    }
}

/// The write path pads nothing: the last byte of an encoding is the
/// only one without the continuation flag, and a multi-byte encoding
/// never ends in an empty group, so no shorter byte string is an
/// encoding of the same value.
pub proof fn lemma_varint_minimal(x: i32)
    ensures
        ({
            let enc = spec_varint(x);
            &&& enc.len() >= 1
            &&& enc[enc.len() - 1] < 0x80
            &&& forall|i: int| 0 <= i < enc.len() - 1 ==> enc[i] >= 0x80
            &&& enc.len() > 1 ==> enc[enc.len() - 1] != 0
        }),
{
    lemma_varint_minimal_u32(spec_u32_of_i32(x));
}

/// An encoding whose first five bytes all flag continuation reads as
/// nothing: the framing is rejected, whatever follows.
pub proof fn lemma_varint_overlong_fails(bytes: Seq<u8>)
    requires
        spec_varint_overlong(bytes),
    ensures
        spec_read_varint(bytes) is None,
{
    lemma_varint_overlong_fails_rec(bytes, 0);
}

proof fn lemma_varint_overlong_fails_rec(bytes: Seq<u8>, depth: int)
    requires
        0 <= depth <= 4,
        spec_varint_overlong_rec(bytes, depth),
    ensures
        spec_read_varint_rec(bytes, depth) is None,
    decreases 5 - depth,
{
    assert(bytes[0] >= 0x80);
    if depth < 4 {
        assert(forall|i: int|
            0 <= i < 5 - (depth + 1) ==> #[trigger] bytes.skip(1)[i] == bytes[i + 1] && bytes[i
                + 1] >= 0x80);
        lemma_varint_overlong_fails_rec(bytes.skip(1), depth + 1);
    }
}

/// A length-prefixed UTF-8 string.
#[derive(Debug, Clone, PartialEq)]
pub struct McString(pub String);

/// The wire bytes of a length-prefixed string: the VarInt byte length,
/// then the UTF-8 bytes; meaningful when the byte length fits a
/// non-negative VarInt.
pub open spec fn spec_mcstring_bytes(s: Seq<char>) -> Seq<u8> {
    spec_varint(encode_utf8(s).len() as i32) + encode_utf8(s)
}

/// Reading a length-prefixed string from the front of a byte source:
/// the characters and the count of bytes consumed. Nothing comes back
/// when the length is malformed or negative, when fewer bytes remain
/// than declared, or when the declared bytes are not valid UTF-8.
pub open spec fn spec_read_mcstring(bytes: Seq<u8>) -> Option<(Seq<char>, int)> {
    match spec_read_varint(bytes) {
        Some((u, n)) => {
            let len = spec_i32_of_u32(u) as int;
            if len < 0 {
                None
            } else if n + len > bytes.len() {
                None
            } else {
                let content = bytes.subrange(n, n + len);
                if valid_utf8(content) {
                    Some((decode_utf8(content), n + len))
                } else {
                    None
                }
            }
        },
        None => None,
    }
}

/// Relies on String::from_utf8: it succeeds exactly on valid UTF-8
/// input and returns the string whose bytes are that input.
#[verifier::external_body]
fn utf8_to_string(bytes: Vec<u8>) -> (r: Option<String>)
    ensures
        match r {
            Some(s) => valid_utf8(bytes@) && s@ == decode_utf8(bytes@),
            None => !valid_utf8(bytes@),
        },
{
    String::from_utf8(bytes).ok()
}

/// Read a length-prefixed string from `pos`, returning it with the
/// position after it. Never consumes more bytes than the declared
/// length, and fails rather than read past the source's end.
#[verifier::loop_isolation(false)]
pub fn read_mcstring(data: &[u8], pos: usize) -> (r: Result<(McString, usize), ProtocolError>)
    requires
        pos <= data@.len(),
    ensures
        match r {
            Ok((m, newpos)) => {
                &&& spec_read_mcstring(data@.skip(pos as int)) matches Some((cs, n)) && m.0@ == cs
                    && newpos == pos + n
                &&& pos < newpos <= data@.len()
            },
            Err(_) => spec_read_mcstring(data@.skip(pos as int)) is None,
        },
{
    let (v, p2) = match read_varint(data, pos) {
        Ok(r) => r,
        Err(e) => {
            return Err(e);
        },
    };
    if v.0 < 0 {
        return Err(ProtocolError::NegativeLength);
    }
    let len = v.0 as usize;
    if len > data.len() - p2 {
        return Err(ProtocolError::UnexpectedEnd);
    }
    let mut content: Vec<u8> = Vec::new();
    let mut i: usize = 0;
    while i < len
        invariant
            i <= len,
            p2 + len <= data@.len(),
            content@ =~= data@.subrange(p2 as int, p2 as int + i as int),
        decreases len - i,
    {
        content.push(data[p2 + i]);
        i += 1;
    }
    proof {
        assert(content@ =~= data@.skip(pos as int).subrange(
            p2 - pos,
            p2 - pos + len,
        ));
    }
    match utf8_to_string(content) {
        Some(s) => Ok((McString(s), p2 + len)),
        None => Err(ProtocolError::InvalidUtf8),
    }
}

/// Append a string's wire form: its VarInt byte length, then its
/// bytes. Fails only when the byte length cannot fit the prefix.
pub fn write_mcstring(out: &mut Vec<u8>, s: &McString) -> (r: Result<(), ProtocolError>)
    ensures
        match r {
            Ok(_) => encode_utf8(s.0@).len() <= 0x7fff_ffff && final(out)@ == old(out)@
                + spec_mcstring_bytes(s.0@),
            Err(e) => encode_utf8(s.0@).len() > 0x7fff_ffff && e == ProtocolError::ValueTooLarge
                && final(out)@ == old(out)@,
        },
{
    let mut bs = s.0.as_str().as_bytes_vec();
    if bs.len() > 0x7fff_ffff {
        return Err(ProtocolError::ValueTooLarge);
    }
    write_varint(out, VarInt(bs.len() as i32));
    out.append(&mut bs);
    proof {
        assert(out@ =~= old(out)@ + spec_mcstring_bytes(s.0@));
    }
    Ok(())
}

/// Read one raw byte, the legacy ping path's primitive.
pub fn read_unsigned_byte(data: &[u8], pos: usize) -> (r: Result<(u8, usize), ProtocolError>)
    ensures
        match r {
            Ok((b, newpos)) => pos < data@.len() && b == data@[pos as int] && newpos == pos + 1,
            Err(e) => pos >= data@.len() && e == ProtocolError::UnexpectedEnd,
        },
{
    if pos < data.len() {
        Ok((data[pos], pos + 1))
    } else {
        Err(ProtocolError::UnexpectedEnd)
    }
}

/// Append one raw byte, the legacy ping path's primitive.
pub fn write_unsigned_byte(out: &mut Vec<u8>, b: u8)
    ensures
        final(out)@ == old(out)@ + seq![b],
{
    out.push(b);
    proof {
        assert(out@ =~= old(out)@ + seq![b]);
    }
}

/// Reading a written string, whatever bytes follow it, yields the same
/// characters back and consumes exactly its wire form.
pub proof fn lemma_mcstring_round_trip(s: Seq<char>, rest: Seq<u8>)
    requires
        encode_utf8(s).len() <= 0x7fff_ffff,
    ensures
        spec_read_mcstring(spec_mcstring_bytes(s) + rest) == Some(
            (s, spec_mcstring_bytes(s).len() as int),
        ),
{
    broadcast use vstd::utf8::encode_utf8_valid_utf8, vstd::utf8::encode_utf8_decode_utf8;

    let content = encode_utf8(s);
    let len = content.len() as i32;
    let enc = spec_varint(len) + content;
    lemma_varint_round_trip(len, content + rest);
    assert(enc + rest =~= spec_varint(len) + (content + rest));
    let n = spec_varint(len).len() as int;
    assert((enc + rest).subrange(n, n + len as int) =~= content);
}

} // verus!
