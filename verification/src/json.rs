//! The crate's own model of a JSON document.
//!
//! The registry source is an external JSON resource. Everything the
//! conversion rules ever inspect is held here as plain values, so the
//! rules themselves can be specified and verified. A number appears
//! pre-classified: either an integer, or a non-integral value carried as
//! the raw bits of its 64-bit form together with the bits of its 32-bit
//! narrowing and whether that narrowing is exact. Producing those fields
//! from a floating-point literal is the caller's concern; the codec only
//! ever reads them.

use vstd::prelude::*;

verus! {

/// A JSON number as the conversion rules see it.
///
/// `Int` holds a value that the source presented as an integer.
/// `Float` holds a non-integral value: `bits64` are the bits of its
/// 64-bit binary form, `bits32` the bits of that value narrowed to
/// 32 bits, and `exact` says whether widening the narrowed value back
/// gives the same value, i.e. whether the 32-bit form loses nothing.
/// `Unrepresentable` stands for a number the source could present
/// neither way.
#[derive(Debug, Clone, Copy, PartialEq, Eq, Structural)]
pub enum JsonNumber {
    Int(i64),
    Float { bits64: u64, bits32: u32, exact: bool },
    Unrepresentable,
}

/// A JSON value, with strings and containers as executable data.
#[derive(Debug)]
pub enum JsonValue {
    Null,
    Bool(bool),
    Num(JsonNumber),
    Str(String),
    Arr(Vec<JsonValue>),
    Obj(Vec<(String, JsonValue)>),
}

/// The mathematical shape of a JSON value: strings as character
/// sequences, containers as sequences.
pub enum JsonModel {
    Null,
    Bool(bool),
    Num(JsonNumber),
    Str(Seq<char>),
    Arr(Seq<JsonModel>),
    Obj(Seq<(Seq<char>, JsonModel)>),
}

/// Model of a JSON value.
pub open spec fn jv_model(j: JsonValue) -> JsonModel
    decreases j,
{
    match j {
        JsonValue::Null => JsonModel::Null,
        JsonValue::Bool(b) => JsonModel::Bool(b),
        JsonValue::Num(n) => JsonModel::Num(n),
        JsonValue::Str(s) => JsonModel::Str(s@),
        JsonValue::Arr(v) => JsonModel::Arr(jv_arr_model(v@)),
        JsonValue::Obj(v) => JsonModel::Obj(jv_obj_model(v@)),
    }
}

/// Elementwise model of an array's values.
pub open spec fn jv_arr_model(s: Seq<JsonValue>) -> Seq<JsonModel>
    decreases s,
{
    if s.len() == 0 {
        Seq::empty()
    } else {
        jv_arr_model(s.drop_last()).push(jv_model(s.last()))
    }
}

/// Entrywise model of an object's key/value pairs.
pub open spec fn jv_obj_model(s: Seq<(String, JsonValue)>) -> Seq<(Seq<char>, JsonModel)>
    decreases s,
{
    if s.len() == 0 {
        Seq::empty()
    } else {
        jv_obj_model(s.drop_last()).push((s.last().0@, jv_model(s.last().1)))
    }
}

impl View for JsonValue {
    type V = JsonModel;

    open spec fn view(&self) -> JsonModel {
        jv_model(*self)
    }
}

/// The model of an array keeps its length and order.
pub proof fn lemma_arr_model_len(s: Seq<JsonValue>)
    ensures
        jv_arr_model(s).len() == s.len(),
        forall|i: int| 0 <= i < s.len() ==> jv_arr_model(s)[i] == jv_model(s[i]),
    decreases s,
{
    if s.len() > 0 {
        lemma_arr_model_len(s.drop_last());
    }
}

/// The model of an object keeps its length, keys and order.
pub proof fn lemma_obj_model_len(s: Seq<(String, JsonValue)>)
    ensures
        jv_obj_model(s).len() == s.len(),
        forall|i: int| 0 <= i < s.len() ==> jv_obj_model(s)[i] == (s[i].0@, jv_model(s[i].1)),
    decreases s,
{
    if s.len() > 0 {
        lemma_obj_model_len(s.drop_last());
    }
}

} // verus!
