//! Byte-for-byte comparison of the crate's encoder with fastnbt's, on
//! the shapes registry entries take. Compounds carry a single entry per
//! level because fastnbt serializes hash maps in arbitrary order.

use std::collections::HashMap;

use obsidium_codec::convert::json_to_nbt;
use obsidium_codec::encode::json_to_nbt_bytes;
use obsidium_codec::json::{JsonNumber, JsonValue};

/// fastnbt's full buffer with its two empty-name bytes removed: the
/// network form of the same root.
fn fastnbt_network_bytes(v: &fastnbt::Value) -> Vec<u8> {
    let mut full = fastnbt::to_bytes(v).unwrap();
    assert!(full.len() >= 3 && full[0] == 10);
    full.remove(1);
    full.remove(1);
    full
}

fn compound(k: &str, v: fastnbt::Value) -> fastnbt::Value {
    let mut m = HashMap::new();
    m.insert(k.to_string(), v);
    fastnbt::Value::Compound(m)
}

#[test]
fn int_entry_matches_fastnbt() {
    let ours = json_to_nbt_bytes(&JsonValue::Obj(vec![(
        String::from("n"),
        JsonValue::Num(JsonNumber::Int(1)),
    )]))
    .unwrap();
    let theirs = fastnbt_network_bytes(&compound("n", fastnbt::Value::Int(1)));
    assert_eq!(ours, theirs);
}

#[test]
fn long_entry_matches_fastnbt() {
    let ours = json_to_nbt_bytes(&JsonValue::Obj(vec![(
        String::from("n"),
        JsonValue::Num(JsonNumber::Int(-9023372036854775807)),
    )]))
    .unwrap();
    let theirs = fastnbt_network_bytes(&compound(
        "n",
        fastnbt::Value::Long(-9023372036854775807),
    ));
    assert_eq!(ours, theirs);
}

#[test]
fn float_and_double_entries_match_fastnbt() {
    let f = 1.5f64;
    let narrowed = f as f32;
    let ours = json_to_nbt_bytes(&JsonValue::Obj(vec![(
        String::from("f"),
        JsonValue::Num(JsonNumber::Float {
            bits64: f.to_bits(),
            bits32: narrowed.to_bits(),
            exact: (narrowed as f64) == f,
        }),
    )]))
    .unwrap();
    let theirs = fastnbt_network_bytes(&compound("f", fastnbt::Value::Float(1.5)));
    assert_eq!(ours, theirs);

    let d = 0.1f64;
    let narrowed = d as f32;
    let ours = json_to_nbt_bytes(&JsonValue::Obj(vec![(
        String::from("d"),
        JsonValue::Num(JsonNumber::Float {
            bits64: d.to_bits(),
            bits32: narrowed.to_bits(),
            exact: (narrowed as f64) == d,
        }),
    )]))
    .unwrap();
    let theirs = fastnbt_network_bytes(&compound("d", fastnbt::Value::Double(0.1)));
    assert_eq!(ours, theirs);
}

#[test]
fn string_entry_matches_fastnbt() {
    let ours = json_to_nbt_bytes(&JsonValue::Obj(vec![(
        String::from("s"),
        JsonValue::Str(String::from("the_nether")),
    )]))
    .unwrap();
    let theirs = fastnbt_network_bytes(&compound(
        "s",
        fastnbt::Value::String(String::from("the_nether")),
    ));
    assert_eq!(ours, theirs);
}

#[test]
fn int_array_entry_matches_fastnbt() {
    let ours = json_to_nbt_bytes(&JsonValue::Obj(vec![(
        String::from("a"),
        JsonValue::Arr(vec![
            JsonValue::Num(JsonNumber::Int(-1)),
            JsonValue::Num(JsonNumber::Int(65536)),
        ]),
    )]))
    .unwrap();
    let theirs = fastnbt_network_bytes(&compound(
        "a",
        fastnbt::Value::IntArray(fastnbt::IntArray::new(vec![-1, 65536])),
    ));
    assert_eq!(ours, theirs);
}

#[test]
fn nested_compound_matches_fastnbt() {
    let ours = json_to_nbt_bytes(&JsonValue::Obj(vec![(
        String::from("outer"),
        JsonValue::Obj(vec![(String::from("inner"), JsonValue::Bool(true))]),
    )]))
    .unwrap();
    let theirs = fastnbt_network_bytes(&compound(
        "outer",
        compound("inner", fastnbt::Value::Byte(1)),
    ));
    assert_eq!(ours, theirs);
}

#[test]
fn string_list_matches_fastnbt() {
    let ours = json_to_nbt_bytes(&JsonValue::Obj(vec![(
        String::from("l"),
        JsonValue::Arr(vec![
            JsonValue::Str(String::from("a")),
            JsonValue::Str(String::from("b")),
        ]),
    )]))
    .unwrap();
    let theirs = fastnbt_network_bytes(&compound(
        "l",
        fastnbt::Value::List(vec![
            fastnbt::Value::String(String::from("a")),
            fastnbt::Value::String(String::from("b")),
        ]),
    ));
    assert_eq!(ours, theirs);
}

#[test]
fn converter_agrees_with_fastnbt_value_shapes() {
    // The converted tree mirrors what the fastnbt-based conversion
    // produced: an int, a collapsed long array, a kept string list.
    let v = json_to_nbt(&JsonValue::Arr(vec![
        JsonValue::Num(JsonNumber::Int(4294967296)),
        JsonValue::Num(JsonNumber::Int(-4294967296)),
    ]))
    .unwrap();
    assert_eq!(
        v,
        obsidium_codec::nbt::Nbt::LongArray(vec![4294967296, -4294967296])
    );
}
