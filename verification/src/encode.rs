//! Binary serialization of tagged values.
//!
//! The layout is big-endian throughout. A full root buffer is the
//! compound tag identifier, a two-byte zero name length, and the root's
//! payload; the network-form transform then removes exactly the two
//! name-length bytes, keeping the tag, as the wire protocol demands of
//! registry data.

use vstd::prelude::*;
use vstd::utf8::encode_utf8;

use crate::convert::{all_tag, spec_convert};
use crate::error::ProtocolError;
use crate::json::{JsonModel, JsonValue};
use crate::nbt::{spec_tag_id, get_tag_id, Nbt, NbtModel};

verus! {

broadcast use vstd::std_specs::vec::group_vec_axioms;

/// The unsigned byte carrying a signed byte's two's-complement bits.
pub open spec fn u8_of_i8(b: i8) -> u8 {
    if b >= 0 {
        b as u8
    } else {
        (b + 0x100) as u8
    }
}

/// The unsigned 16-bit value carrying a signed short's bits.
pub open spec fn u16_of_i16(x: i16) -> u16 {
    if x >= 0 {
        x as u16
    } else {
        (x + 0x10000) as u16
    }
}

/// The unsigned 32-bit value carrying a signed int's bits.
pub open spec fn u32_of_i32(x: i32) -> u32 {
    if x >= 0 {
        x as u32
    } else {
        (x + 0x1_0000_0000) as u32
    }
}

/// The unsigned 64-bit value carrying a signed long's bits.
pub open spec fn u64_of_i64(x: i64) -> u64 {
    if x >= 0 {
        x as u64
    } else {
        (x + 0x1_0000_0000_0000_0000) as u64
    }
}

/// Big-endian bytes of a 16-bit value.
pub open spec fn be16(x: u16) -> Seq<u8> {
    seq![((x as int / 0x100) % 0x100) as u8, (x as int % 0x100) as u8]
}

/// Big-endian bytes of a 32-bit value.
pub open spec fn be32(x: u32) -> Seq<u8> {
    seq![
        ((x as int / 0x100_0000) % 0x100) as u8,
        ((x as int / 0x1_0000) % 0x100) as u8,
        ((x as int / 0x100) % 0x100) as u8,
        (x as int % 0x100) as u8,
    ]
}

/// Big-endian bytes of a 64-bit value.
pub open spec fn be64(x: u64) -> Seq<u8> {
    seq![
        ((x as int / 0x100_0000_0000_0000) % 0x100) as u8,
        ((x as int / 0x1_0000_0000_0000) % 0x100) as u8,
        ((x as int / 0x100_0000_0000) % 0x100) as u8,
        ((x as int / 0x1_0000_0000) % 0x100) as u8,
        ((x as int / 0x100_0000) % 0x100) as u8,
        ((x as int / 0x1_0000) % 0x100) as u8,
        ((x as int / 0x100) % 0x100) as u8,
        (x as int % 0x100) as u8,
    ]
}

/// Tag byte written ahead of a list: its elements' shared tag, or zero
/// for an empty list.
pub open spec fn spec_list_elem_tag(vs: Seq<NbtModel>) -> u8 {
    if vs.len() == 0 {
        0
    } else {
        spec_tag_id(vs[0])
    }
}

/// True when a value has a binary form: every length fits its prefix
/// and every list is homogeneous.
pub open spec fn spec_encodable(v: NbtModel) -> bool
    decreases v,
{
    match v {
        NbtModel::Byte(_) => true,
        NbtModel::Short(_) => true,
        NbtModel::Int(_) => true,
        NbtModel::Long(_) => true,
        NbtModel::Float(_) => true,
        NbtModel::Double(_) => true,
        NbtModel::ByteArray(s) => s.len() <= 0x7fff_ffff,
        NbtModel::Str(s) => encode_utf8(s).len() <= 0xffff,
        NbtModel::List(vs) => vs.len() <= 0x7fff_ffff && (vs.len() == 0 || all_tag(
            vs,
            spec_tag_id(vs[0]),
        )) && spec_encodable_seq(vs),
        NbtModel::Compound(es) => spec_encodable_entries(es),
        NbtModel::IntArray(s) => s.len() <= 0x7fff_ffff,
        NbtModel::LongArray(s) => s.len() <= 0x7fff_ffff,
    }
}

/// Every element of a list has a binary form.
pub open spec fn spec_encodable_seq(vs: Seq<NbtModel>) -> bool
    decreases vs,
{
    if vs.len() == 0 {
        true
    } else {
        spec_encodable_seq(vs.drop_last()) && spec_encodable(vs.last())
    }
}

/// Every entry of a compound has a name that fits its length prefix
/// and a value with a binary form.
pub open spec fn spec_encodable_entries(es: Seq<(Seq<char>, NbtModel)>) -> bool
    decreases es,
{
    if es.len() == 0 {
        true
    } else {
        spec_encodable_entries(es.drop_last()) && encode_utf8(es.last().0).len() <= 0xffff
            && spec_encodable(es.last().1)
    }
}

/// Payload bytes of a value, without its own tag or name; meaningful
/// when the value is encodable.
pub open spec fn spec_payload(v: NbtModel) -> Seq<u8>
    decreases v,
{
    match v {
        NbtModel::Byte(b) => seq![u8_of_i8(b)],
        NbtModel::Short(x) => be16(u16_of_i16(x)),
        NbtModel::Int(x) => be32(u32_of_i32(x)),
        NbtModel::Long(x) => be64(u64_of_i64(x)),
        NbtModel::Float(f) => be32(f),
        NbtModel::Double(d) => be64(d),
        NbtModel::ByteArray(s) => be32(s.len() as u32) + Seq::new(
            s.len(),
            |i: int| u8_of_i8(s[i]),
        ),
        NbtModel::Str(s) => be16(encode_utf8(s).len() as u16) + encode_utf8(s),
        NbtModel::List(vs) => seq![spec_list_elem_tag(vs)] + be32(vs.len() as u32)
            + spec_payload_seq(vs),
        NbtModel::Compound(es) => spec_payload_entries(es) + seq![0u8],
        NbtModel::IntArray(s) => be32(s.len() as u32) + spec_payload_ints(s),
        NbtModel::LongArray(s) => be32(s.len() as u32) + spec_payload_longs(s),
    }
}

/// Concatenated payloads of a list's elements.
pub open spec fn spec_payload_seq(vs: Seq<NbtModel>) -> Seq<u8>
    decreases vs,
{
    if vs.len() == 0 {
        Seq::empty()
    } else {
        spec_payload_seq(vs.drop_last()) + spec_payload(vs.last())
    }
}

/// One compound entry: the value's tag, the name with its two-byte
/// length, then the value's payload.
pub open spec fn spec_entry_bytes(name: Seq<char>, v: NbtModel) -> Seq<u8> {
    seq![spec_tag_id(v)] + be16(encode_utf8(name).len() as u16) + encode_utf8(name)
        + spec_payload(v)
}

/// Concatenated entries of a compound, without the closing zero.
pub open spec fn spec_payload_entries(es: Seq<(Seq<char>, NbtModel)>) -> Seq<u8>
    decreases es,
{
    if es.len() == 0 {
        Seq::empty()
    } else {
        spec_payload_entries(es.drop_last()) + seq![spec_tag_id(es.last().1)] + be16(
            encode_utf8(es.last().0).len() as u16,
        ) + encode_utf8(es.last().0) + spec_payload(es.last().1)
    }
}

/// Concatenated big-endian bytes of an int array's elements.
pub open spec fn spec_payload_ints(s: Seq<i32>) -> Seq<u8>
    decreases s,
{
    if s.len() == 0 {
        Seq::empty()
    } else {
        spec_payload_ints(s.drop_last()) + be32(u32_of_i32(s.last()))
    }
}

/// Concatenated big-endian bytes of a long array's elements.
pub open spec fn spec_payload_longs(s: Seq<i64>) -> Seq<u8>
    decreases s,
{
    if s.len() == 0 {
        Seq::empty()
    } else {
        spec_payload_longs(s.drop_last()) + be64(u64_of_i64(s.last()))
    }
}

/// Append the big-endian bytes of a 16-bit value.
pub(crate) fn push_be16(out: &mut Vec<u8>, x: u16)
    ensures
        final(out)@ == old(out)@ + be16(x),
{
    out.push(((x / 0x100) % 0x100) as u8);
    out.push((x % 0x100) as u8);
    proof {
        assert(out@ =~= old(out)@ + be16(x));
    }
}

/// Append the big-endian bytes of a 32-bit value.
fn push_be32(out: &mut Vec<u8>, x: u32)
    ensures
        final(out)@ == old(out)@ + be32(x),
{
    out.push(((x / 0x100_0000) % 0x100) as u8);
    out.push(((x / 0x1_0000) % 0x100) as u8);
    out.push(((x / 0x100) % 0x100) as u8);
    out.push((x % 0x100) as u8);
    proof {
        assert(out@ =~= old(out)@ + be32(x));
    }
}

/// Append the big-endian bytes of a 64-bit value.
fn push_be64(out: &mut Vec<u8>, x: u64)
    ensures
        final(out)@ == old(out)@ + be64(x),
{
    out.push(((x / 0x100_0000_0000_0000) % 0x100) as u8);
    out.push(((x / 0x1_0000_0000_0000) % 0x100) as u8);
    out.push(((x / 0x100_0000_0000) % 0x100) as u8);
    out.push(((x / 0x1_0000_0000) % 0x100) as u8);
    out.push(((x / 0x100_0000) % 0x100) as u8);
    out.push(((x / 0x1_0000) % 0x100) as u8);
    out.push(((x / 0x100) % 0x100) as u8);
    out.push((x % 0x100) as u8);
    proof {
        assert(out@ =~= old(out)@ + be64(x));
    }
}

/// The unsigned byte of a signed byte.
fn u8_from_i8(b: i8) -> (r: u8)
    ensures
        r == u8_of_i8(b),
{
    if b >= 0 {
        b as u8
    } else {
        ((b as i16) + 0x100) as u8
    }
}

/// The unsigned 16-bit value of a signed short.
fn u16_from_i16(x: i16) -> (r: u16)
    ensures
        r == u16_of_i16(x),
{
    if x >= 0 {
        x as u16
    } else {
        ((x as i32) + 0x10000) as u16
    }
}

/// The unsigned 32-bit value of a signed int.
fn u32_from_i32(x: i32) -> (r: u32)
    ensures
        r == u32_of_i32(x),
{
    if x >= 0 {
        x as u32
    } else {
        ((x as i64) + 0x1_0000_0000) as u32
    }
}

/// The unsigned 64-bit value of a signed long.
fn u64_from_i64(x: i64) -> (r: u64)
    ensures
        r == u64_of_i64(x),
{
    if x >= 0 {
        x as u64
    } else {
        (((x as i128) + 0x1_0000_0000_0000_0000) as u64)
    }
}

/// Append a string's bytes after their two-byte length.
fn push_str(out: &mut Vec<u8>, s: &String) -> (r: Result<(), ProtocolError>)
    ensures
        match r {
            Ok(_) => encode_utf8(s@).len() <= 0xffff && final(out)@ == old(out)@ + be16(
                encode_utf8(s@).len() as u16,
            ) + encode_utf8(s@),
            Err(e) => encode_utf8(s@).len() > 0xffff && e == ProtocolError::ValueTooLarge
                && final(out)@ == old(out)@,
        },
{
    let mut bs = s.as_str().as_bytes_vec();
    if bs.len() > 0xffff {
        return Err(ProtocolError::ValueTooLarge);
    }
    push_be16(out, bs.len() as u16);
    out.append(&mut bs);
    proof {
        assert(out@ =~= old(out)@ + be16(encode_utf8(s@).len() as u16) + encode_utf8(s@));
    }
    Ok(())
}

/// Appending one element steps the list payload by its payload.
proof fn lemma_payload_seq_push(s: Seq<NbtModel>, x: NbtModel)
    ensures
        spec_payload_seq(s.push(x)) == spec_payload_seq(s) + spec_payload(x),
{
    assert(s.push(x).drop_last() =~= s);
    assert(s.push(x).last() == x);
}

/// Appending one element steps the list encodability check by one.
proof fn lemma_encodable_seq_push(s: Seq<NbtModel>, x: NbtModel)
    ensures
        spec_encodable_seq(s.push(x)) == (spec_encodable_seq(s) && spec_encodable(x)),
{
    assert(s.push(x).drop_last() =~= s);
    assert(s.push(x).last() == x);
}

/// One unencodable element makes the whole list unencodable.
proof fn lemma_encodable_seq_element(s: Seq<NbtModel>, k: int)
    requires
        0 <= k < s.len(),
        !spec_encodable(s[k]),
    ensures
        !spec_encodable_seq(s),
    decreases s,
{
    if k == s.len() - 1 {
    } else {
        lemma_encodable_seq_element(s.drop_last(), k);
    }
}

/// Appending one entry steps the compound payload by its entry bytes.
proof fn lemma_payload_entries_push(es: Seq<(Seq<char>, NbtModel)>, x: (Seq<char>, NbtModel))
    ensures
        spec_payload_entries(es.push(x)) == spec_payload_entries(es) + spec_entry_bytes(x.0, x.1),
{
    assert(es.push(x).drop_last() =~= es);
    assert(es.push(x).last() == x);
    assert(spec_payload_entries(es) + spec_entry_bytes(x.0, x.1) =~= spec_payload_entries(es)
        + seq![spec_tag_id(x.1)] + be16(encode_utf8(x.0).len() as u16) + encode_utf8(x.0)
        + spec_payload(x.1));
}

/// Appending one entry steps the compound encodability check by one.
proof fn lemma_encodable_entries_push(es: Seq<(Seq<char>, NbtModel)>, x: (Seq<char>, NbtModel))
    ensures
        spec_encodable_entries(es.push(x)) == (spec_encodable_entries(es) && encode_utf8(
            x.0,
        ).len() <= 0xffff && spec_encodable(x.1)),
{
    assert(es.push(x).drop_last() =~= es);
    assert(es.push(x).last() == x);
}

/// One bad entry makes the whole compound unencodable.
proof fn lemma_encodable_entries_element(es: Seq<(Seq<char>, NbtModel)>, k: int)
    requires
        0 <= k < es.len(),
        encode_utf8(es[k].0).len() > 0xffff || !spec_encodable(es[k].1),
    ensures
        !spec_encodable_entries(es),
    decreases es,
{
    if k == es.len() - 1 {
    } else {
        lemma_encodable_entries_element(es.drop_last(), k);
    }
}

/// Appending one element steps the int-array payload by one.
proof fn lemma_payload_ints_push(s: Seq<i32>, x: i32)
    ensures
        spec_payload_ints(s.push(x)) == spec_payload_ints(s) + be32(u32_of_i32(x)),
{
    assert(s.push(x).drop_last() =~= s);
    assert(s.push(x).last() == x);
}

/// Appending one element steps the long-array payload by one.
proof fn lemma_payload_longs_push(s: Seq<i64>, x: i64)
    ensures
        spec_payload_longs(s.push(x)) == spec_payload_longs(s) + be64(u64_of_i64(x)),
{
    assert(s.push(x).drop_last() =~= s);
    assert(s.push(x).last() == x);
}

/// Append a value's payload bytes.
///
/// Succeeds exactly on encodable values: every length must fit its
/// prefix and every list must be homogeneous. On failure the buffer may
/// hold a partial prefix; callers discard it.
#[verifier::loop_isolation(false)]
#[verifier::rlimit(100)]
pub fn encode_payload(v: &Nbt, out: &mut Vec<u8>) -> (r: Result<(), ProtocolError>)
    ensures
        match r {
            Ok(_) => spec_encodable(v@) && final(out)@ == old(out)@ + spec_payload(v@),
            Err(e) => !spec_encodable(v@) && (e == ProtocolError::ValueTooLarge || e
                == ProtocolError::MixedList),
        },
    decreases *v,
{
    match v {
        Nbt::Byte(b) => {
            out.push(u8_from_i8(*b));
            proof {
                assert(out@ =~= old(out)@ + spec_payload(v@));
            }
            Ok(())
        },
        Nbt::Short(x) => {
            push_be16(out, u16_from_i16(*x));
            Ok(())
        },
        Nbt::Int(x) => {
            push_be32(out, u32_from_i32(*x));
            Ok(())
        },
        Nbt::Long(x) => {
            push_be64(out, u64_from_i64(*x));
            Ok(())
        },
        Nbt::Float(f) => {
            push_be32(out, *f);
            Ok(())
        },
        Nbt::Double(d) => {
            push_be64(out, *d);
            Ok(())
        },
        Nbt::ByteArray(s) => {
            if s.len() > 0x7fff_ffff {
                return Err(ProtocolError::ValueTooLarge);
            }
            push_be32(out, s.len() as u32);
            let mut i: usize = 0;
            while i < s.len()
                invariant
                    i <= s.len(),
                    out@ =~= old(out)@ + be32(s@.len() as u32) + Seq::new(
                        i as nat,
                        |k: int| u8_of_i8(s@[k]),
                    ),
                decreases s.len() - i,
            {
                out.push(u8_from_i8(s[i]));
                i += 1;
            }
            proof {
                assert(out@ =~= old(out)@ + spec_payload(v@));
            }
            Ok(())
        },
        Nbt::Str(s) => {
            match push_str(out, s) {
                Ok(_) => Ok(()),
                Err(e) => Err(e),
            }
        },
        Nbt::List(vs) => {
            let ghost lm = crate::nbt::nbt_list_model(vs@);
            proof {
                crate::nbt::lemma_list_model_len(vs@);
            }
            if vs.len() > 0x7fff_ffff {
                return Err(ProtocolError::ValueTooLarge);
            }
            let t = if vs.len() == 0 {
                0u8
            } else {
                get_tag_id(&vs[0])
            };
            let mut k: usize = 0;
            let mut homo = true;
            while k < vs.len()
                invariant
                    k <= vs.len(),
                    homo == all_tag(lm.take(k as int), t),
                decreases vs.len() - k,
            {
                if get_tag_id(&vs[k]) != t {
                    homo = false;
                    proof {
                        assert(spec_tag_id(lm.take(k as int + 1)[k as int]) != t);
                        assert(!all_tag(lm.take(k as int + 1), t));
                    }
                } else {
                    proof {
                        assert(homo ==> all_tag(lm.take(k as int + 1), t)) by {
                            if homo {
                                assert(forall|i: int|
                                    0 <= i < k as int + 1 ==> spec_tag_id(
                                        #[trigger] lm.take(k as int + 1)[i],
                                    ) == t);
                            }
                        }
                        assert(!homo ==> !all_tag(lm.take(k as int + 1), t)) by {
                            if !homo {
                                let w = choose|i: int|
                                    0 <= i < k as int && spec_tag_id(#[trigger] lm.take(
                                        k as int,
                                    )[i]) != t;
                                assert(spec_tag_id(lm.take(k as int + 1)[w]) != t);
                            }
                        }
                    }
                }
                k += 1;
            }
            proof {
                assert(lm.take(vs@.len() as int) =~= lm);
            }
            if !homo {
                return Err(ProtocolError::MixedList);
            }
            out.push(t);
            push_be32(out, vs.len() as u32);
            let ghost mid = out@;
            let mut idx: usize = 0;
            while idx < vs.len()
                invariant
                    idx <= vs.len(),
                    out@ =~= mid + spec_payload_seq(lm.take(idx as int)),
                    spec_encodable_seq(lm.take(idx as int)),
                decreases vs.len() - idx,
            {
                proof {
                    assert(decreases_to!(*v => v->List_0));
                    assert(decreases_to!(*vs => vs@));
                    assert(decreases_to!(vs@ => vs@[idx as int]));
                    assert(decreases_to!(*v => vs@[idx as int]));
                }
                match encode_payload(&vs[idx], out) {
                    Ok(_) => {
                        proof {
                            lemma_payload_seq_push(lm.take(idx as int), lm[idx as int]);
                            lemma_encodable_seq_push(lm.take(idx as int), lm[idx as int]);
                            assert(lm.take(idx as int + 1) =~= lm.take(idx as int).push(
                                lm[idx as int],
                            ));
                        }
                    },
                    Err(e) => {
                        proof {
                            lemma_encodable_seq_element(lm, idx as int);
                        }
                        return Err(e);
                    },
                }
                idx += 1;
            }
            proof {
                assert(out@ =~= old(out)@ + spec_payload(v@));
            }
            Ok(())
        },
        Nbt::Compound(es) => {
            let ghost cm = crate::nbt::nbt_compound_model(es@);
            proof {
                crate::nbt::lemma_compound_model_len(es@);
            }
            let mut idx: usize = 0;
            while idx < es.len()
                invariant
                    idx <= es.len(),
                    out@ =~= old(out)@ + spec_payload_entries(cm.take(idx as int)),
                    spec_encodable_entries(cm.take(idx as int)),
                decreases es.len() - idx,
            {
                out.push(get_tag_id(&es[idx].1));
                match push_str(out, &es[idx].0) {
                    Ok(_) => {},
                    Err(e) => {
                        proof {
                            lemma_encodable_entries_element(cm, idx as int);
                        }
                        return Err(e);
                    },
                }
                proof {
                    assert(decreases_to!(*v => v->Compound_0));
                    assert(decreases_to!(*es => es@));
                    assert(decreases_to!(es@ => es@[idx as int]));
                    assert(decreases_to!(es@[idx as int] => es@[idx as int].1));
                    assert(decreases_to!(*v => es@[idx as int].1));
                }
                match encode_payload(&es[idx].1, out) {
                    Ok(_) => {
                        proof {
                            lemma_payload_entries_push(cm.take(idx as int), cm[idx as int]);
                            lemma_encodable_entries_push(cm.take(idx as int), cm[idx as int]);
                            assert(cm.take(idx as int + 1) =~= cm.take(idx as int).push(
                                cm[idx as int],
                            ));
                            assert(out@ =~= old(out)@ + spec_payload_entries(
                                cm.take(idx as int + 1),
                            ));
                        }
                    },
                    Err(e) => {
                        proof {
                            lemma_encodable_entries_element(cm, idx as int);
                        }
                        return Err(e);
                    },
                }
                idx += 1;
            }
            out.push(0u8);
            proof {
                assert(cm.take(es@.len() as int) =~= cm);
                assert(out@ =~= old(out)@ + spec_payload(v@));
            }
            Ok(())
        },
        Nbt::IntArray(s) => {
            if s.len() > 0x7fff_ffff {
                return Err(ProtocolError::ValueTooLarge);
            }
            push_be32(out, s.len() as u32);
            let ghost mid = out@;
            let mut i: usize = 0;
            while i < s.len()
                invariant
                    i <= s.len(),
                    out@ =~= mid + spec_payload_ints(s@.take(i as int)),
                decreases s.len() - i,
            {
                push_be32(out, u32_from_i32(s[i]));
                proof {
                    lemma_payload_ints_push(s@.take(i as int), s@[i as int]);
                    assert(s@.take(i as int + 1) =~= s@.take(i as int).push(s@[i as int]));
                }
                i += 1;
            }
            proof {
                assert(s@.take(s@.len() as int) =~= s@);
                assert(out@ =~= old(out)@ + spec_payload(v@));
            }
            Ok(())
        },
        Nbt::LongArray(s) => {
            if s.len() > 0x7fff_ffff {
                return Err(ProtocolError::ValueTooLarge);
            }
            push_be32(out, s.len() as u32);
            let ghost mid = out@;
            let mut i: usize = 0;
            while i < s.len()
                invariant
                    i <= s.len(),
                    out@ =~= mid + spec_payload_longs(s@.take(i as int)),
                decreases s.len() - i,
            {
                push_be64(out, u64_from_i64(s[i]));
                proof {
                    lemma_payload_longs_push(s@.take(i as int), s@[i as int]);
                    assert(s@.take(i as int + 1) =~= s@.take(i as int).push(s@[i as int]));
                }
                i += 1;
            }
            proof {
                assert(s@.take(s@.len() as int) =~= s@);
                assert(out@ =~= old(out)@ + spec_payload(v@));
            }
            Ok(())
        },
    }
}

/// Encode a root value into its full named form: the compound tag
/// identifier, a two-byte zero name length, then the payload. Only an
/// encodable compound has this form.
pub fn encode_root(v: &Nbt) -> (r: Result<Vec<u8>, ProtocolError>)
    ensures
        match r {
            Ok(buf) => v@ is Compound && spec_encodable(v@) && buf@ == seq![10u8, 0u8, 0u8]
                + spec_payload(v@),
            Err(e) => if v@ is Compound {
                !spec_encodable(v@) && (e == ProtocolError::ValueTooLarge || e
                    == ProtocolError::MixedList)
            } else {
                e == ProtocolError::InvalidRootTag
            },
        },
{
    match v {
        Nbt::Compound(_) => {},
        _ => {
            return Err(ProtocolError::InvalidRootTag);
        },
    }
    let mut out: Vec<u8> = Vec::new();
    out.push(10u8);
    out.push(0u8);
    out.push(0u8);
    match encode_payload(v, &mut out) {
        Ok(_) => {
            proof {
                assert(out@ =~= seq![10u8, 0u8, 0u8] + spec_payload(v@));
            }
            Ok(out)
        },
        Err(e) => Err(e),
    }
}

/// Strip a full root buffer to its network form: remove exactly the
/// two name-length bytes after the leading tag byte. Rejects a buffer
/// that is shorter than three bytes or does not start with the compound
/// tag, which would mean the encoder broke its own invariant.
pub fn to_network_form(buf: Vec<u8>) -> (r: Result<Vec<u8>, ProtocolError>)
    ensures
        match r {
            Ok(out) => buf@.len() >= 3 && buf@[0] == 10 && out@ == seq![buf@[0]] + buf@.skip(3),
            Err(e) => (buf@.len() < 3 || buf@[0] != 10) && e == ProtocolError::InvalidRootTag,
        },
{
    if buf.len() < 3 || buf[0] != 10 {
        return Err(ProtocolError::InvalidRootTag);
    }
    let mut out = buf;
    out.remove(1);
    out.remove(1);
    proof {
        assert(out@ =~= seq![buf@[0]] + buf@.skip(3));
    }
    Ok(out)
}

/// The network-form bytes of a JSON registry entry, when it has them:
/// the entry must convert to a compound and that compound must be
/// encodable.
pub open spec fn spec_json_to_nbt_bytes(jm: JsonModel) -> Option<Seq<u8>> {
    match spec_convert(jm) {
        Some(nv) => if nv is Compound && spec_encodable(nv) {
            Some(seq![10u8] + spec_payload(nv))
        } else {
            None
        },
        None => None,
    }
}

/// Convert a JSON entry and encode it in network form: the compound
/// tag byte followed immediately by the root payload, with no name
/// bytes between them.
pub fn json_to_nbt_bytes(j: &JsonValue) -> (r: Result<Vec<u8>, ProtocolError>)
    ensures
        match r {
            Ok(b) => spec_json_to_nbt_bytes(j@) == Some(b@),
            Err(e) => {
                &&& spec_json_to_nbt_bytes(j@) is None
                &&& match spec_convert(j@) {
                    None => e == ProtocolError::InvalidNumber,
                    Some(nv) => if nv is Compound {
                        e == ProtocolError::ValueTooLarge || e == ProtocolError::MixedList
                    } else {
                        e == ProtocolError::InvalidRootTag
                    },
                }
            },
        },
{
    let nv = match crate::convert::json_to_nbt(j) {
        Ok(nv) => nv,
        Err(e) => {
            return Err(e);
        },
    };
    let full = match encode_root(&nv) {
        Ok(full) => full,
        Err(e) => {
            return Err(e);
        },
    };
    match to_network_form(full) {
        Ok(out) => {
            proof {
                assert(out@ =~= seq![10u8] + spec_payload(nv@));
            }
            Ok(out)
        },
        Err(e) => {
            proof {
                assert(false);
            }
            Err(e)
        },
    }
}

} // verus!
