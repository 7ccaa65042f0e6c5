use obsidium_codec::error::ProtocolError;
use obsidium_codec::json::{JsonNumber, JsonValue};
use obsidium_codec::registry::{
    get_all_biomes, get_all_chat_types, get_all_damage_types, get_all_dimension_types, GameData,
};

fn entry_obj(field: &str, n: i64) -> JsonValue {
    JsonValue::Obj(vec![(
        field.to_string(),
        JsonValue::Num(JsonNumber::Int(n)),
    )])
}

/// A document with one bare-keyed registry of two entries.
fn sample_data() -> GameData {
    let doc = JsonValue::Obj(vec![(
        String::from("dimension_type"),
        JsonValue::Obj(vec![
            (String::from("minecraft:overworld"), entry_obj("height", 384)),
            (String::from("minecraft:the_nether"), entry_obj("height", 256)),
        ]),
    )]);
    GameData::load(doc).unwrap()
}

#[test]
fn load_rejects_non_object_documents() {
    assert_eq!(
        GameData::load(JsonValue::Arr(Vec::new())).err(),
        Some(ProtocolError::DocumentNotObject)
    );
}

#[test]
fn qualified_and_bare_names_resolve_identically() {
    let data = sample_data();
    let full = data.get_registry_entries("minecraft:dimension_type").unwrap();
    let bare = data.get_registry_entries("dimension_type").unwrap();
    assert_eq!(full, bare);
    assert_eq!(full.len(), 2);
    assert_eq!(full[0].0, "minecraft:overworld");
    assert_eq!(full[1].0, "minecraft:the_nether");
}

#[test]
fn missing_registry_fails_naming_the_input() {
    let data = sample_data();
    match data.get_registry_entries("minecraft:missing") {
        Err(ProtocolError::RegistryNotFound(name)) => {
            assert_eq!(name, "minecraft:missing");
        },
        other => panic!("unexpected result: {:?}", other),
    }
}

#[test]
fn non_object_registry_fails() {
    let doc = JsonValue::Obj(vec![(
        String::from("broken"),
        JsonValue::Num(JsonNumber::Int(1)),
    )]);
    let data = GameData::load(doc).unwrap();
    match data.get_registry_entries("broken") {
        Err(ProtocolError::RegistryNotObject(name)) => assert_eq!(name, "broken"),
        other => panic!("unexpected result: {:?}", other),
    }
}

#[test]
fn one_bad_entry_is_skipped_with_one_warning() {
    let doc = JsonValue::Obj(vec![(
        String::from("damage_type"),
        JsonValue::Obj(vec![
            (String::from("minecraft:arrow"), entry_obj("exhaustion", 0)),
            (
                String::from("minecraft:broken"),
                JsonValue::Obj(vec![(
                    String::from("exhaustion"),
                    JsonValue::Num(JsonNumber::Unrepresentable),
                )]),
            ),
            (String::from("minecraft:cramming"), entry_obj("exhaustion", 0)),
        ]),
    )]);
    let data = GameData::load(doc).unwrap();
    let (entries, warnings) = data
        .get_registry_entries_with_warnings("damage_type")
        .unwrap();
    assert_eq!(entries.len(), 2);
    assert_eq!(entries[0].0, "minecraft:arrow");
    assert_eq!(entries[1].0, "minecraft:cramming");
    assert_eq!(warnings.len(), 1);
    assert_eq!(warnings[0], "minecraft:broken");
    // The plain accessor returns the same healthy entries.
    assert_eq!(data.get_registry_entries("damage_type").unwrap(), entries);
}

#[test]
fn entry_bytes_are_network_form() {
    let doc = JsonValue::Obj(vec![(
        String::from("chat_type"),
        JsonValue::Obj(vec![(String::from("minecraft:chat"), entry_obj("id", 1))]),
    )]);
    let data = GameData::load(doc).unwrap();
    let entries = data.get_registry_entries("minecraft:chat_type").unwrap();
    assert_eq!(entries.len(), 1);
    assert_eq!(
        entries[0].1,
        vec![0x0a, 0x03, 0x00, 0x02, b'i', b'd', 0x00, 0x00, 0x00, 0x01, 0x00]
    );
}

#[test]
fn essential_registries_are_fixed() {
    let data = sample_data();
    let es = data.get_essential_registries();
    assert_eq!(
        es,
        vec![
            "minecraft:dimension_type",
            "minecraft:worldgen/biome",
            "minecraft:chat_type",
            "minecraft:damage_type",
        ]
    );
}

#[test]
fn all_registries_are_normalized() {
    let doc = JsonValue::Obj(vec![
        (String::from("minecraft:dimension_type"), JsonValue::Obj(Vec::new())),
        (String::from("chat_type"), JsonValue::Obj(Vec::new())),
        (String::from("custom:thing"), JsonValue::Obj(Vec::new())),
    ]);
    let data = GameData::load(doc).unwrap();
    assert_eq!(
        data.get_all_registries(),
        vec![
            String::from("minecraft:dimension_type"),
            String::from("minecraft:chat_type"),
            String::from("custom:thing"),
        ]
    );
}

#[test]
fn fixed_accessors_return_their_registry() {
    let doc = JsonValue::Obj(vec![
        (
            String::from("minecraft:dimension_type"),
            JsonValue::Obj(vec![(String::from("minecraft:overworld"), entry_obj("h", 1))]),
        ),
        (
            String::from("minecraft:worldgen/biome"),
            JsonValue::Obj(vec![(String::from("minecraft:plains"), entry_obj("t", 2))]),
        ),
        (
            String::from("minecraft:chat_type"),
            JsonValue::Obj(vec![(String::from("minecraft:chat"), entry_obj("i", 3))]),
        ),
        (
            String::from("minecraft:damage_type"),
            JsonValue::Obj(vec![(String::from("minecraft:arrow"), entry_obj("e", 4))]),
        ),
    ]);
    let data = GameData::load(doc).unwrap();
    assert_eq!(get_all_dimension_types(&data).len(), 1);
    assert_eq!(get_all_biomes(&data).len(), 1);
    assert_eq!(get_all_chat_types(&data).len(), 1);
    assert_eq!(get_all_damage_types(&data).len(), 1);
    assert_eq!(get_all_dimension_types(&data)[0].0, "minecraft:overworld");
}

#[test]
fn fixed_accessors_are_empty_when_absent() {
    let data = GameData::load(JsonValue::Obj(Vec::new())).unwrap();
    assert!(get_all_dimension_types(&data).is_empty());
    assert!(get_all_biomes(&data).is_empty());
    assert!(get_all_chat_types(&data).is_empty());
    assert!(get_all_damage_types(&data).is_empty());
}
