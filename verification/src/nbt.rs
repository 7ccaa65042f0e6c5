//! The tagged binary value model.
//!
//! A closed union of the twelve tagged kinds the protocol knows, each
//! with a fixed numeric identifier governing its binary layout. The two
//! floating kinds carry the raw bits of their values: the codec never
//! computes with them, it only lays them out.

use vstd::prelude::*;

verus! {

/// A tagged binary value, with containers as executable data.
#[derive(Debug, PartialEq)]
pub enum Nbt {
    Byte(i8),
    Short(i16),
    Int(i32),
    Long(i64),
    /// Bits of a 32-bit floating value.
    Float(u32),
    /// Bits of a 64-bit floating value.
    Double(u64),
    ByteArray(Vec<i8>),
    Str(String),
    List(Vec<Nbt>),
    Compound(Vec<(String, Nbt)>),
    IntArray(Vec<i32>),
    LongArray(Vec<i64>),
}

/// The mathematical shape of a tagged value.
pub enum NbtModel {
    Byte(i8),
    Short(i16),
    Int(i32),
    Long(i64),
    Float(u32),
    Double(u64),
    ByteArray(Seq<i8>),
    Str(Seq<char>),
    List(Seq<NbtModel>),
    Compound(Seq<(Seq<char>, NbtModel)>),
    IntArray(Seq<i32>),
    LongArray(Seq<i64>),
}

/// Model of a tagged value.
pub open spec fn nbt_model(v: Nbt) -> NbtModel
    decreases v,
{
    match v {
        Nbt::Byte(b) => NbtModel::Byte(b),
        Nbt::Short(s) => NbtModel::Short(s),
        Nbt::Int(i) => NbtModel::Int(i),
        Nbt::Long(l) => NbtModel::Long(l),
        Nbt::Float(f) => NbtModel::Float(f),
        Nbt::Double(d) => NbtModel::Double(d),
        Nbt::ByteArray(v) => NbtModel::ByteArray(v@),
        Nbt::Str(s) => NbtModel::Str(s@),
        Nbt::List(v) => NbtModel::List(nbt_list_model(v@)),
        Nbt::Compound(v) => NbtModel::Compound(nbt_compound_model(v@)),
        Nbt::IntArray(v) => NbtModel::IntArray(v@),
        Nbt::LongArray(v) => NbtModel::LongArray(v@),
    }
}

/// Elementwise model of a list's values.
pub open spec fn nbt_list_model(s: Seq<Nbt>) -> Seq<NbtModel>
    decreases s,
{
    if s.len() == 0 {
        Seq::empty()
    } else {
        nbt_list_model(s.drop_last()).push(nbt_model(s.last()))
    }
}

/// Entrywise model of a compound's named entries.
pub open spec fn nbt_compound_model(s: Seq<(String, Nbt)>) -> Seq<(Seq<char>, NbtModel)>
    decreases s,
{
    if s.len() == 0 {
        Seq::empty()
    } else {
        nbt_compound_model(s.drop_last()).push((s.last().0@, nbt_model(s.last().1)))
    }
}

impl View for Nbt {
    type V = NbtModel;

    open spec fn view(&self) -> NbtModel {
        nbt_model(*self)
    }
}

/// The model of a list keeps its length and order.
pub proof fn lemma_list_model_len(s: Seq<Nbt>)
    ensures
        nbt_list_model(s).len() == s.len(),
        forall|i: int| 0 <= i < s.len() ==> nbt_list_model(s)[i] == nbt_model(s[i]),
    decreases s,
{
    if s.len() > 0 {
        lemma_list_model_len(s.drop_last());
    }
}

/// The model of a compound keeps its length, names and order.
pub proof fn lemma_compound_model_len(s: Seq<(String, Nbt)>)
    ensures
        nbt_compound_model(s).len() == s.len(),
        forall|i: int| 0 <= i < s.len() ==> nbt_compound_model(s)[i] == (s[i].0@, nbt_model(
            s[i].1,
        )),
    decreases s,
{
    if s.len() > 0 {
        lemma_compound_model_len(s.drop_last());
    }
}

/// The fixed numeric identifier of a tagged kind.
pub open spec fn spec_tag_id(v: NbtModel) -> u8 {
    match v {
        NbtModel::Byte(_) => 1,
        NbtModel::Short(_) => 2,
        NbtModel::Int(_) => 3,
        NbtModel::Long(_) => 4,
        NbtModel::Float(_) => 5,
        NbtModel::Double(_) => 6,
        NbtModel::ByteArray(_) => 7,
        NbtModel::Str(_) => 8,
        NbtModel::List(_) => 9,
        NbtModel::Compound(_) => 10,
        NbtModel::IntArray(_) => 11,
        NbtModel::LongArray(_) => 12,
    }
}

/// The numeric identifier of a value's tag.
pub fn get_tag_id(v: &Nbt) -> (r: u8)
    ensures
        r == spec_tag_id(v@),
{
    match v {
        Nbt::Byte(_) => 1,
        Nbt::Short(_) => 2,
        Nbt::Int(_) => 3,
        Nbt::Long(_) => 4,
        Nbt::Float(_) => 5,
        Nbt::Double(_) => 6,
        Nbt::ByteArray(_) => 7,
        Nbt::Str(_) => 8,
        Nbt::List(_) => 9,
        Nbt::Compound(_) => 10,
        Nbt::IntArray(_) => 11,
        Nbt::LongArray(_) => 12,
    }
}

} // verus!
