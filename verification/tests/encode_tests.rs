use obsidium_codec::encode::{encode_root, json_to_nbt_bytes, to_network_form};
use obsidium_codec::error::ProtocolError;
use obsidium_codec::json::{JsonNumber, JsonValue};
use obsidium_codec::nbt::Nbt;

#[test]
fn network_form_starts_with_tag_then_payload() {
    // {"x": 1} encodes, after the transform, as the compound tag byte
    // followed immediately by the first entry, with no name-length
    // bytes in between.
    let entry = JsonValue::Obj(vec![(String::from("x"), JsonValue::Num(JsonNumber::Int(1)))]);
    let bytes = json_to_nbt_bytes(&entry).unwrap();
    assert_eq!(
        bytes,
        vec![
            0x0a, // compound tag of the anonymous root
            0x03, 0x00, 0x01, b'x', // entry: int tag, name length 1, name
            0x00, 0x00, 0x00, 0x01, // int payload, big-endian
            0x00, // end of compound
        ]
    );
}

#[test]
fn full_form_has_empty_name_and_transform_strips_it() {
    let entry = JsonValue::Obj(vec![(String::from("x"), JsonValue::Num(JsonNumber::Int(1)))]);
    let v = obsidium_codec::convert::json_to_nbt(&entry).unwrap();
    let full = encode_root(&v).unwrap();
    assert_eq!(&full[0..3], &[0x0a, 0x00, 0x00]);
    let net = to_network_form(full.clone()).unwrap();
    assert_eq!(net[0], 0x0a);
    assert_eq!(&net[1..], &full[3..]);
}

#[test]
fn transform_rejects_short_or_foreign_buffers() {
    assert_eq!(
        to_network_form(vec![0x0a, 0x00]),
        Err(ProtocolError::InvalidRootTag)
    );
    assert_eq!(
        to_network_form(vec![0x01, 0x00, 0x00, 0x00]),
        Err(ProtocolError::InvalidRootTag)
    );
}

#[test]
fn non_object_entry_has_no_root() {
    // A bare number converts to a tagged int, which is no legal root.
    let entry = JsonValue::Num(JsonNumber::Int(5));
    assert_eq!(
        json_to_nbt_bytes(&entry),
        Err(ProtocolError::InvalidRootTag)
    );
}

#[test]
fn unrepresentable_number_fails_encoding() {
    let entry = JsonValue::Obj(vec![(
        String::from("bad"),
        JsonValue::Num(JsonNumber::Unrepresentable),
    )]);
    assert_eq!(json_to_nbt_bytes(&entry), Err(ProtocolError::InvalidNumber));
}

#[test]
fn mixed_list_fails_encoding() {
    // A mixed array converts to a heterogeneous list, which has no
    // binary form.
    let entry = JsonValue::Obj(vec![(
        String::from("mixed"),
        JsonValue::Arr(vec![
            JsonValue::Num(JsonNumber::Int(1)),
            JsonValue::Str(String::from("a")),
        ]),
    )]);
    assert_eq!(json_to_nbt_bytes(&entry), Err(ProtocolError::MixedList));
}

#[test]
fn oversized_string_fails_encoding() {
    let big = "a".repeat(70000);
    let entry = JsonValue::Obj(vec![(String::from("s"), JsonValue::Str(big))]);
    assert_eq!(json_to_nbt_bytes(&entry), Err(ProtocolError::ValueTooLarge));
}

#[test]
fn encode_root_rejects_non_compound() {
    assert_eq!(
        encode_root(&Nbt::Int(3)),
        Err(ProtocolError::InvalidRootTag)
    );
}

#[test]
fn scalar_payloads_are_big_endian() {
    let entry = JsonValue::Obj(vec![(
        String::from("n"),
        JsonValue::Num(JsonNumber::Int(4886718345)),
    )]);
    let bytes = json_to_nbt_bytes(&entry).unwrap();
    assert_eq!(
        bytes,
        vec![
            0x0a, 0x04, 0x00, 0x01, b'n', // long tag, name
            0x00, 0x00, 0x00, 0x01, 0x23, 0x45, 0x67, 0x89, // long payload
            0x00,
        ]
    );
}

#[test]
fn arrays_and_lists_carry_their_layout() {
    let entry = JsonValue::Obj(vec![(
        String::from("a"),
        JsonValue::Arr(vec![
            JsonValue::Num(JsonNumber::Int(1)),
            JsonValue::Num(JsonNumber::Int(2)),
        ]),
    )]);
    let bytes = json_to_nbt_bytes(&entry).unwrap();
    assert_eq!(
        bytes,
        vec![
            0x0a, 0x0b, 0x00, 0x01, b'a', // int-array tag, name
            0x00, 0x00, 0x00, 0x02, // element count
            0x00, 0x00, 0x00, 0x01, 0x00, 0x00, 0x00, 0x02, // elements
            0x00,
        ]
    );
    let entry = JsonValue::Obj(vec![(
        String::from("l"),
        JsonValue::Arr(vec![
            JsonValue::Str(String::from("p")),
            JsonValue::Str(String::from("q")),
        ]),
    )]);
    let bytes = json_to_nbt_bytes(&entry).unwrap();
    assert_eq!(
        bytes,
        vec![
            0x0a, 0x09, 0x00, 0x01, b'l', // list tag, name
            0x08, // element tag: string
            0x00, 0x00, 0x00, 0x02, // element count
            0x00, 0x01, b'p', 0x00, 0x01, b'q', // elements
            0x00,
        ]
    );
}
