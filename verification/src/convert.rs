//! Conversion of JSON values into tagged binary values.
//!
//! The rules are tailored to the registry schema: JSON null becomes the
//! empty tagged string, booleans become bytes, numbers are inferred as
//! Int/Long/Float/Double, arrays of bytes, ints or longs collapse into
//! the corresponding primitive array, and objects become compounds with
//! their explicit nulls dropped.

use vstd::prelude::*;

use crate::error::ProtocolError;
use crate::json::{jv_arr_model, jv_model, jv_obj_model, JsonModel, JsonNumber, JsonValue};
use crate::nbt::{
    nbt_compound_model, nbt_list_model, nbt_model, spec_tag_id, get_tag_id, Nbt, NbtModel,
};

verus! {

broadcast use vstd::std_specs::vec::group_vec_axioms;

/// Inference rule for a number: an integral value within the signed
/// 32-bit range becomes Int, any other integral value becomes Long; a
/// non-integral value becomes Float exactly when its 32-bit narrowing is
/// exact, and Double otherwise. A number representable neither way has
/// no tagged form.
pub open spec fn spec_convert_number(n: JsonNumber) -> Option<NbtModel> {
    match n {
        JsonNumber::Int(i) => if -2147483648 <= i <= 2147483647 {
            Some(NbtModel::Int(i as i32))
        } else {
            Some(NbtModel::Long(i))
        },
        JsonNumber::Float { bits64, bits32, exact } => if exact {
            Some(NbtModel::Float(bits32))
        } else {
            Some(NbtModel::Double(bits64))
        },
        JsonNumber::Unrepresentable => None,
    }
}

/// True when every element of `vs` carries tag `t`.
pub open spec fn all_tag(vs: Seq<NbtModel>, t: u8) -> bool {
    forall|i: int| 0 <= i < vs.len() ==> spec_tag_id(vs[i]) == t
}

/// The scalar inside a Byte element; elements of any other kind stand
/// in as zero (the collapse only unwraps after homogeneity is known).
pub open spec fn byte_of(v: NbtModel) -> i8 {
    match v {
        NbtModel::Byte(b) => b,
        _ => 0,
    }
}

/// The scalar inside an Int element, zero for any other kind.
pub open spec fn int_of(v: NbtModel) -> i32 {
    match v {
        NbtModel::Int(i) => i,
        _ => 0,
    }
}

/// The scalar inside a Long element, zero for any other kind.
pub open spec fn long_of(v: NbtModel) -> i64 {
    match v {
        NbtModel::Long(l) => l,
        _ => 0,
    }
}

/// Collapse rule for a converted array: a non-empty array whose
/// elements all carry the Byte, Int or Long tag becomes the matching
/// primitive array; every other array, the empty one included, stays a
/// list of its converted elements.
pub open spec fn spec_collapse(vs: Seq<NbtModel>) -> NbtModel {
    if vs.len() == 0 {
        NbtModel::List(vs)
    } else {
        let t = spec_tag_id(vs[0]);
        if all_tag(vs, t) {
            if t == 1 {
                NbtModel::ByteArray(Seq::new(vs.len(), |i: int| byte_of(vs[i])))
            } else if t == 3 {
                NbtModel::IntArray(Seq::new(vs.len(), |i: int| int_of(vs[i])))
            } else if t == 4 {
                NbtModel::LongArray(Seq::new(vs.len(), |i: int| long_of(vs[i])))
            } else {
                NbtModel::List(vs)
            }
        } else {
            NbtModel::List(vs)
        }
    }
}

/// The conversion, over models. `None` marks the one failure: a number
/// without a tagged form somewhere in the value.
pub open spec fn spec_convert(j: JsonModel) -> Option<NbtModel>
    decreases j,
{
    match j {
        JsonModel::Null => Some(NbtModel::Str(Seq::empty())),
        JsonModel::Bool(b) => Some(NbtModel::Byte(if b { 1 } else { 0 })),
        JsonModel::Num(n) => spec_convert_number(n),
        JsonModel::Str(s) => Some(NbtModel::Str(s)),
        JsonModel::Arr(elems) => match spec_convert_arr(elems) {
            Some(vs) => Some(spec_collapse(vs)),
            None => None,
        },
        JsonModel::Obj(entries) => match spec_convert_obj(entries) {
            Some(es) => Some(NbtModel::Compound(es)),
            None => None,
        },
    }
}

/// Elementwise conversion of an array; fails as soon as one element
/// fails.
pub open spec fn spec_convert_arr(s: Seq<JsonModel>) -> Option<Seq<NbtModel>>
    decreases s,
{
    if s.len() == 0 {
        Some(Seq::empty())
    } else {
        match spec_convert_arr(s.drop_last()) {
            Some(init) => match spec_convert(s.last()) {
                Some(v) => Some(init.push(v)),
                None => None,
            },
            None => None,
        }
    }
}

/// Entrywise conversion of an object: entries holding an explicit null
/// are dropped silently, every other entry must convert.
pub open spec fn spec_convert_obj(s: Seq<(Seq<char>, JsonModel)>) -> Option<
    Seq<(Seq<char>, NbtModel)>,
>
    decreases s,
{
    if s.len() == 0 {
        Some(Seq::empty())
    } else {
        match spec_convert_obj(s.drop_last()) {
            Some(init) => match s.last().1 {
                JsonModel::Null => Some(init),
                _ => match spec_convert(s.last().1) {
                    Some(v) => Some(init.push((s.last().0, v))),
                    None => None,
                },
            },
            None => None,
        }
    }
}

/// Appending one element steps the array conversion by one.
proof fn lemma_convert_arr_push(s: Seq<JsonModel>, x: JsonModel)
    ensures
        spec_convert_arr(s.push(x)) == match spec_convert_arr(s) {
            Some(init) => match spec_convert(x) {
                Some(v) => Some(init.push(v)),
                None => None::<Seq<NbtModel>>,
            },
            None => None::<Seq<NbtModel>>,
        },
{
    assert(s.push(x).drop_last() =~= s);
    assert(s.push(x).last() == x);
}

/// Once a prefix of the array fails to convert, the whole array fails.
proof fn lemma_convert_arr_prefix_none(s: Seq<JsonModel>, k: int)
    requires
        0 <= k <= s.len(),
        spec_convert_arr(s.take(k)) is None,
    ensures
        spec_convert_arr(s) is None,
    decreases s.len() - k,
{
    if k == s.len() {
        assert(s.take(k) =~= s);
    } else {
        assert(s.take(k + 1) =~= s.take(k).push(s[k]));
        lemma_convert_arr_push(s.take(k), s[k]);
        lemma_convert_arr_prefix_none(s, k + 1);
    }
}

/// Appending one entry steps the object conversion by one.
proof fn lemma_convert_obj_push(s: Seq<(Seq<char>, JsonModel)>, x: (Seq<char>, JsonModel))
    ensures
        spec_convert_obj(s.push(x)) == match spec_convert_obj(s) {
            Some(init) => match x.1 {
                JsonModel::Null => Some(init),
                _ => match spec_convert(x.1) {
                    Some(v) => Some(init.push((x.0, v))),
                    None => None::<Seq<(Seq<char>, NbtModel)>>,
                },
            },
            None => None::<Seq<(Seq<char>, NbtModel)>>,
        },
{
    assert(s.push(x).drop_last() =~= s);
    assert(s.push(x).last() == x);
}

/// Once a prefix of the object fails to convert, the whole object
/// fails.
proof fn lemma_convert_obj_prefix_none(s: Seq<(Seq<char>, JsonModel)>, k: int)
    requires
        0 <= k <= s.len(),
        spec_convert_obj(s.take(k)) is None,
    ensures
        spec_convert_obj(s) is None,
    decreases s.len() - k,
{
    if k == s.len() {
        assert(s.take(k) =~= s);
    } else {
        assert(s.take(k + 1) =~= s.take(k).push(s[k]));
        lemma_convert_obj_push(s.take(k), s[k]);
        lemma_convert_obj_prefix_none(s, k + 1);
    }
}

/// Appending one value steps the list model by one.
proof fn lemma_list_model_push(s: Seq<Nbt>, x: Nbt)
    ensures
        nbt_list_model(s.push(x)) == nbt_list_model(s).push(nbt_model(x)),
{
    assert(s.push(x).drop_last() =~= s);
    assert(s.push(x).last() == x);
}

/// Appending one entry steps the compound model by one.
proof fn lemma_compound_model_push(s: Seq<(String, Nbt)>, x: (String, Nbt))
    ensures
        nbt_compound_model(s.push(x)) == nbt_compound_model(s).push((x.0@, nbt_model(x.1))),
{
    assert(s.push(x).drop_last() =~= s);
    assert(s.push(x).last() == x);
}

/// Convert a JSON value into its tagged binary value.
///
/// Succeeds on every value except one holding a number without a
/// tagged form; no other variant fails.
#[verifier::loop_isolation(false)]
pub fn json_to_nbt(j: &JsonValue) -> (r: Result<Nbt, ProtocolError>)
    ensures
        match r {
            Ok(v) => spec_convert(j@) == Some(nbt_model(v)),
            Err(e) => spec_convert(j@) is None && e == ProtocolError::InvalidNumber,
        },
    decreases *j,
{
    match j {
        JsonValue::Null => Ok(Nbt::Str(String::new())),
        JsonValue::Bool(b) => Ok(Nbt::Byte(if *b { 1 } else { 0 })),
        JsonValue::Num(n) => match *n {
            JsonNumber::Int(i) => if -2147483648i64 <= i && i <= 2147483647i64 {
                Ok(Nbt::Int(i as i32))
            } else {
                Ok(Nbt::Long(i))
            },
            JsonNumber::Float { bits64, bits32, exact } => if exact {
                Ok(Nbt::Float(bits32))
            } else {
                Ok(Nbt::Double(bits64))
            },
            JsonNumber::Unrepresentable => Err(ProtocolError::InvalidNumber),
        },
        JsonValue::Str(s) => Ok(Nbt::Str(s.clone())),
        JsonValue::Arr(arr) => {
            let ghost jm = jv_arr_model(arr@);
            proof {
                crate::json::lemma_arr_model_len(arr@);
            }
            let mut out: Vec<Nbt> = Vec::new();
            let mut idx: usize = 0;
            while idx < arr.len()
                invariant
                    idx <= arr.len(),
                    jm == jv_arr_model(arr@),
                    jm.len() == arr@.len(),
                    forall|i: int| 0 <= i < arr@.len() ==> jm[i] == jv_model(arr@[i]),
                    out@.len() == idx,
                    spec_convert_arr(jm.take(idx as int)) == Some(nbt_list_model(out@)),
                decreases arr.len() - idx,
            {
                proof {
                    assert(decreases_to!(*j => j->Arr_0));
                    assert(decreases_to!(*arr => arr@));
                    assert(decreases_to!(arr@ => arr@[idx as int]));
                    assert(decreases_to!(*j => arr@[idx as int]));
                }
                match json_to_nbt(&arr[idx]) {
                    Ok(v) => {
                        proof {
                            lemma_convert_arr_push(jm.take(idx as int), jm[idx as int]);
                            lemma_list_model_push(out@, v);
                            assert(jm.take(idx as int + 1) =~= jm.take(idx as int).push(
                                jm[idx as int],
                            ));
                        }
                        out.push(v);
                    },
                    Err(e) => {
                        proof {
                            lemma_convert_arr_push(jm.take(idx as int), jm[idx as int]);
                            assert(jm.take(idx as int + 1) =~= jm.take(idx as int).push(
                                jm[idx as int],
                            ));
                            lemma_convert_arr_prefix_none(jm, idx as int + 1);
                        }
                        return Err(e);
                    },
                }
                idx += 1;
            }
            proof {
                assert(jm.take(arr@.len() as int) =~= jm);
            }
            if out.len() == 0 {
                return Ok(Nbt::List(out));
            }
            let ghost lm = nbt_list_model(out@);
            proof {
                crate::nbt::lemma_list_model_len(out@);
            }
            let t = get_tag_id(&out[0]);
            let mut homo = true;
            let mut k: usize = 1;
            while k < out.len()
                invariant
                    1 <= k <= out.len(),
                    lm == nbt_list_model(out@),
                    lm.len() == out@.len(),
                    out@.len() >= 1,
                    forall|i: int| 0 <= i < out@.len() ==> lm[i] == nbt_model(out@[i]),
                    t == spec_tag_id(lm[0]),
                    homo == all_tag(lm.take(k as int), t),
                decreases out.len() - k,
            {
                if get_tag_id(&out[k]) != t {
                    homo = false;
                    proof {
                        assert(spec_tag_id(lm.take(k as int + 1)[k as int]) != t);
                        assert(!all_tag(lm.take(k as int + 1), t));
                    }
                } else {
                    proof {
                        assert(homo ==> all_tag(lm.take(k as int + 1), t)) by {
                            if homo {
                                assert(forall|i: int|
                                    0 <= i < k as int + 1 ==> spec_tag_id(
                                        #[trigger] lm.take(k as int + 1)[i],
                                    ) == t);
                            }
                        }
                        assert(!homo ==> !all_tag(lm.take(k as int + 1), t)) by {
                            if !homo {
                                let w = choose|i: int|
                                    0 <= i < k as int && spec_tag_id(#[trigger] lm.take(
                                        k as int,
                                    )[i]) != t;
                                assert(spec_tag_id(lm.take(k as int + 1)[w]) != t);
                            }
                        }
                    }
                }
                k += 1;
            }
            proof {
                assert(lm.take(out@.len() as int) =~= lm);
            }
            if homo && t == 1 {
                let mut bytes: Vec<i8> = Vec::new();
                let mut w: usize = 0;
                while w < out.len()
                    invariant
                        w <= out.len(),
                        lm == nbt_list_model(out@),
                        lm.len() == out@.len(),
                        forall|i: int| 0 <= i < out@.len() ==> lm[i] == nbt_model(out@[i]),
                        bytes@ =~= Seq::new(w as nat, |i: int| byte_of(lm[i])),
                    decreases out.len() - w,
                {
                    match &out[w] {
                        Nbt::Byte(b) => bytes.push(*b),
                        _ => bytes.push(0i8),
                    }
                    w += 1;
                }
                proof {
                    assert(bytes@ =~= Seq::new(lm.len(), |i: int| byte_of(lm[i])));
                }
                Ok(Nbt::ByteArray(bytes))
            } else if homo && t == 3 {
                let mut ints: Vec<i32> = Vec::new();
                let mut w: usize = 0;
                while w < out.len()
                    invariant
                        w <= out.len(),
                        lm == nbt_list_model(out@),
                        lm.len() == out@.len(),
                        forall|i: int| 0 <= i < out@.len() ==> lm[i] == nbt_model(out@[i]),
                        ints@ =~= Seq::new(w as nat, |i: int| int_of(lm[i])),
                    decreases out.len() - w,
                {
                    match &out[w] {
                        Nbt::Int(v) => ints.push(*v),
                        _ => ints.push(0i32),
                    }
                    w += 1;
                }
                proof {
                    assert(ints@ =~= Seq::new(lm.len(), |i: int| int_of(lm[i])));
                }
                Ok(Nbt::IntArray(ints))
            } else if homo && t == 4 {
                let mut longs: Vec<i64> = Vec::new();
                let mut w: usize = 0;
                while w < out.len()
                    invariant
                        w <= out.len(),
                        lm == nbt_list_model(out@),
                        lm.len() == out@.len(),
                        forall|i: int| 0 <= i < out@.len() ==> lm[i] == nbt_model(out@[i]),
                        longs@ =~= Seq::new(w as nat, |i: int| long_of(lm[i])),
                    decreases out.len() - w,
                {
                    match &out[w] {
                        Nbt::Long(v) => longs.push(*v),
                        _ => longs.push(0i64),
                    }
                    w += 1;
                }
                proof {
                    assert(longs@ =~= Seq::new(lm.len(), |i: int| long_of(lm[i])));
                }
                Ok(Nbt::LongArray(longs))
            } else {
                Ok(Nbt::List(out))
            }
        },
        JsonValue::Obj(obj) => {
            let ghost om = jv_obj_model(obj@);
            proof {
                crate::json::lemma_obj_model_len(obj@);
            }
            let mut entries: Vec<(String, Nbt)> = Vec::new();
            let mut idx: usize = 0;
            while idx < obj.len()
                invariant
                    idx <= obj.len(),
                    om == jv_obj_model(obj@),
                    om.len() == obj@.len(),
                    forall|i: int| 0 <= i < obj@.len() ==> om[i] == (obj@[i].0@, jv_model(
                        obj@[i].1,
                    )),
                    spec_convert_obj(om.take(idx as int)) == Some(nbt_compound_model(entries@)),
                decreases obj.len() - idx,
            {
                let is_null = match &obj[idx].1 {
                    JsonValue::Null => true,
                    _ => false,
                };
                if !is_null {
                    proof {
                        assert(decreases_to!(*j => j->Obj_0));
                        assert(decreases_to!(*obj => obj@));
                        assert(decreases_to!(obj@ => obj@[idx as int]));
                        assert(decreases_to!(obj@[idx as int] => obj@[idx as int].1));
                        assert(decreases_to!(*j => obj@[idx as int].1));
                    }
                    match json_to_nbt(&obj[idx].1) {
                        Ok(v) => {
                            let name = obj[idx].0.clone();
                            proof {
                                lemma_convert_obj_push(om.take(idx as int), om[idx as int]);
                                lemma_compound_model_push(entries@, (name, v));
                                assert(om.take(idx as int + 1) =~= om.take(idx as int).push(
                                    om[idx as int],
                                ));
                            }
                            entries.push((name, v));
                        },
                        Err(e) => {
                            proof {
                                lemma_convert_obj_push(om.take(idx as int), om[idx as int]);
                                assert(om.take(idx as int + 1) =~= om.take(idx as int).push(
                                    om[idx as int],
                                ));
                                lemma_convert_obj_prefix_none(om, idx as int + 1);
                            }
                            return Err(e);
                        },
                    }
                } else {
                    proof {
                        lemma_convert_obj_push(om.take(idx as int), om[idx as int]);
                        assert(om.take(idx as int + 1) =~= om.take(idx as int).push(
                            om[idx as int],
                        ));
                    }
                }
                idx += 1;
            }
            proof {
                assert(om.take(obj@.len() as int) =~= om);
            }
            Ok(Nbt::Compound(entries))
        },
    }
}

} // verus!
