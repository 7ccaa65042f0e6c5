//! The registry data provider.
//!
//! A `GameData` owns the parsed registry document: a catalog of named
//! registries, each mapping entry names to entry values. A registry
//! name resolves first by exact match, then by the part after its last
//! colon; per-entry conversion failures are non-fatal, the entry is
//! skipped and its name recorded as a warning while every healthy entry
//! is still returned.

use vstd::prelude::*;

use crate::encode::{json_to_nbt_bytes, spec_json_to_nbt_bytes};
use crate::error::ProtocolError;
use crate::json::{jv_obj_model, JsonModel, JsonValue};

verus! {

broadcast use vstd::std_specs::vec::group_vec_axioms;

/// First value stored under `name`, scanning in document order.
pub open spec fn spec_lookup(entries: Seq<(Seq<char>, JsonModel)>, name: Seq<char>) -> Option<
    JsonModel,
>
    decreases entries,
{
    if entries.len() == 0 {
        None
    } else if entries[0].0 == name {
        Some(entries[0].1)
    } else {
        spec_lookup(entries.drop_first(), name)
    }
}

/// Index just past the last colon of a name: minus one when the name
/// holds no colon.
pub open spec fn spec_last_colon(s: Seq<char>) -> int
    decreases s,
{
    if s.len() == 0 {
        -1
    } else if s.last() == ':' {
        s.len() - 1
    } else {
        spec_last_colon(s.drop_last())
    }
}

/// The part of a name after its last colon; the whole name when it
/// holds none.
pub open spec fn spec_short_name(s: Seq<char>) -> Seq<char> {
    s.subrange(spec_last_colon(s) + 1, s.len() as int)
}

/// Resolution of a registry name: the exact name first, then its short
/// form.
pub open spec fn spec_resolve(
    entries: Seq<(Seq<char>, JsonModel)>,
    name: Seq<char>,
) -> Option<JsonModel> {
    match spec_lookup(entries, name) {
        Some(v) => Some(v),
        None => spec_lookup(entries, spec_short_name(name)),
    }
}

/// The healthy entries of a registry, in order: each entry that has
/// network-form bytes, paired with them; the rest are skipped.
pub open spec fn spec_registry_entries(entries: Seq<(Seq<char>, JsonModel)>) -> Seq<
    (Seq<char>, Seq<u8>),
>
    decreases entries,
{
    if entries.len() == 0 {
        Seq::empty()
    } else {
        let init = spec_registry_entries(entries.drop_last());
        match spec_json_to_nbt_bytes(entries.last().1) {
            Some(b) => init.push((entries.last().0, b)),
            None => init,
        }
    }
}

/// The names of the skipped entries of a registry, in order: one per
/// entry without network-form bytes.
pub open spec fn spec_failed_entries(entries: Seq<(Seq<char>, JsonModel)>) -> Seq<Seq<char>>
    decreases entries,
{
    if entries.len() == 0 {
        Seq::empty()
    } else {
        let init = spec_failed_entries(entries.drop_last());
        match spec_json_to_nbt_bytes(entries.last().1) {
            Some(_) => init,
            None => init.push(entries.last().0),
        }
    }
}

/// Model of a list of named byte buffers.
pub open spec fn pairs_model(s: Seq<(String, Vec<u8>)>) -> Seq<(Seq<char>, Seq<u8>)> {
    Seq::new(s.len(), |i: int| (s[i].0@, s[i].1@))
}

/// Model of a list of strings.
pub open spec fn strs_model(s: Seq<String>) -> Seq<Seq<char>> {
    Seq::new(s.len(), |i: int| s[i]@)
}

/// Character-for-character equality of two strings.
#[verifier::loop_isolation(false)]
fn str_eq(a: &str, b: &str) -> (r: bool)
    ensures
        r == (a@ == b@),
{
    let an = a.unicode_len();
    let bn = b.unicode_len();
    if an != bn {
        return false;
    }
    let mut i: usize = 0;
    while i < an
        invariant
            i <= an,
            forall|k: int| 0 <= k < i ==> a@[k] == b@[k],
        decreases an - i,
    {
        if a.get_char(i) != b.get_char(i) {
            return false;
        }
        i += 1;
    }
    proof {
        assert(a@ =~= b@);
    }
    true
}

/// Index just past the last colon of a name, zero when it holds none.
#[verifier::loop_isolation(false)]
fn last_colon_cut(s: &str) -> (cut: usize)
    ensures
        cut as int == spec_last_colon(s@) + 1,
        cut <= s@.len(),
{
    let n = s.unicode_len();
    let mut i: usize = n;
    proof {
        assert(s@.take(n as int) =~= s@);
    }
    while i > 0
        invariant
            i <= n,
            spec_last_colon(s@) == spec_last_colon(s@.take(i as int)),
        decreases i,
    {
        if s.get_char(i - 1) == ':' {
            proof {
                assert(s@.take(i as int).last() == s@[i - 1]);
            }
            return i;
        }
        proof {
            assert(s@.take(i as int).last() == s@[i - 1]);
            assert(s@.take(i as int).drop_last() =~= s@.take(i as int - 1));
        }
        i -= 1;
    }
    proof {
        assert(s@.take(0) =~= Seq::<char>::empty());
    }
    0
}

/// The part of a name after its last colon; the name itself when it
/// holds none.
fn short_name<'a>(s: &'a str) -> (r: &'a str)
    ensures
        r@ == spec_short_name(s@),
{
    let n = s.unicode_len();
    let cut = last_colon_cut(s);
    s.substring_char(cut, n)
}

/// True when the name holds a colon.
fn has_colon(s: &str) -> (r: bool)
    ensures
        r == (spec_last_colon(s@) >= 0),
{
    let cut = last_colon_cut(s);
    cut > 0
}

/// The registry catalog, parsed once and read-only thereafter.
///
/// Callers hold a handle to the provider rather than reaching a hidden
/// global; everything after construction is pure computation over this
/// immutable data.
#[derive(Debug)]
pub struct GameData {
    /// Top-level pairs of the registry document, in document order.
    registries: Vec<(String, JsonValue)>,
}

impl View for GameData {
    type V = Seq<(Seq<char>, JsonModel)>;

    closed spec fn view(&self) -> Seq<(Seq<char>, JsonModel)> {
        jv_obj_model(self.registries@)
    }
}

impl GameData {
    /// Load game data from the parsed registry document, which must be
    /// a JSON object of registries.
    pub fn load(doc: JsonValue) -> (r: Result<GameData, ProtocolError>)
        ensures
            match r {
                Ok(g) => doc@ matches JsonModel::Obj(entries) && g@ == entries,
                Err(e) => !(doc@ is Obj) && e == ProtocolError::DocumentNotObject,
            },
    {
        match doc {
            JsonValue::Obj(registries) => Ok(GameData { registries }),
            _ => Err(ProtocolError::DocumentNotObject),
        }
    }

    /// Index of the registry stored under exactly `name`, if any.
    #[verifier::loop_isolation(false)]
    fn lookup_index(&self, name: &str) -> (r: Option<usize>)
        ensures
            match r {
                Some(i) => i < self.registries@.len() && self@[i as int].0 == name@ && spec_lookup(
                    self@,
                    name@,
                ) == Some(self@[i as int].1),
                None => spec_lookup(self@, name@) is None,
            },
    {
        proof {
            crate::json::lemma_obj_model_len(self.registries@);
        }
        let n = self.registries.len();
        let mut i: usize = 0;
        proof {
            assert(self@.skip(0) =~= self@);
        }
        while i < n
            invariant
                i <= n,
                spec_lookup(self@, name@) == spec_lookup(self@.skip(i as int), name@),
            decreases n - i,
        {
            if str_eq(self.registries[i].0.as_str(), name) {
                proof {
                    assert(self@.skip(i as int)[0] == self@[i as int]);
                }
                return Some(i);
            }
            proof {
                assert(self@.skip(i as int)[0] == self@[i as int]);
                assert(self@.skip(i as int).drop_first() =~= self@.skip(i as int + 1));
            }
            i += 1;
        }
        proof {
            assert(self@.skip(n as int) =~= Seq::<(Seq<char>, JsonModel)>::empty());
        }
        None
    }

    /// Index of the registry that `name` resolves to: the exact name
    /// first, then the part after its last colon.
    fn resolve_index(&self, name: &str) -> (r: Option<usize>)
        ensures
            match r {
                Some(i) => i < self.registries@.len() && spec_resolve(self@, name@) == Some(
                    self@[i as int].1,
                ),
                None => spec_resolve(self@, name@) is None,
            },
    {
        match self.lookup_index(name) {
            Some(i) => Some(i),
            None => {
                let short = short_name(name);
                self.lookup_index(short)
            },
        }
    }

    /// The healthy entries of the named registry, each with its
    /// network-form bytes, together with the names of the entries that
    /// were skipped: one warning per entry that has no such bytes.
    ///
    /// Fails only when the name resolves to no registry, carrying the
    /// name exactly as supplied, or when the resolved registry is not
    /// a JSON object.
    #[verifier::loop_isolation(false)]
    pub fn get_registry_entries_with_warnings(&self, registry_name: &str) -> (r: Result<
        (Vec<(String, Vec<u8>)>, Vec<String>),
        ProtocolError,
    >)
        ensures
            match r {
                Ok((es, ws)) => {
                    &&& spec_resolve(self@, registry_name@) matches Some(JsonModel::Obj(entries))
                        && pairs_model(es@) == spec_registry_entries(entries) && strs_model(ws@)
                        == spec_failed_entries(entries)
                },
                Err(e) => match spec_resolve(self@, registry_name@) {
                    Some(v) => {
                        &&& !(v is Obj)
                        &&& e matches ProtocolError::RegistryNotObject(s) && s@ == registry_name@
                    },
                    None => e matches ProtocolError::RegistryNotFound(s) && s@ == registry_name@,
                },
            },
    {
        let idx = match self.resolve_index(registry_name) {
            Some(i) => i,
            None => {
                return Err(ProtocolError::RegistryNotFound(registry_name.to_owned()));
            },
        };
        proof {
            crate::json::lemma_obj_model_len(self.registries@);
        }
        let obj = match &self.registries[idx].1 {
            JsonValue::Obj(obj) => obj,
            _ => {
                return Err(ProtocolError::RegistryNotObject(registry_name.to_owned()));
            },
        };
        let ghost om = jv_obj_model(obj@);
        proof {
            crate::json::lemma_obj_model_len(obj@);
        }
        let mut es: Vec<(String, Vec<u8>)> = Vec::new();
        let mut ws: Vec<String> = Vec::new();
        let n = obj.len();
        let mut i: usize = 0;
        while i < n
            invariant
                i <= n,
                pairs_model(es@) =~= spec_registry_entries(om.take(i as int)),
                strs_model(ws@) =~= spec_failed_entries(om.take(i as int)),
            decreases n - i,
        {
            proof {
                assert(om.take(i as int + 1).drop_last() =~= om.take(i as int));
                assert(om.take(i as int + 1).last() == om[i as int]);
            }
            match json_to_nbt_bytes(&obj[i].1) {
                Ok(bytes) => {
                    let name = obj[i].0.clone();
                    es.push((name, bytes));
                    proof {
                        assert(pairs_model(es@) =~= spec_registry_entries(om.take(i as int + 1)));
                    }
                },
                Err(_) => {
                    let name = obj[i].0.clone();
                    ws.push(name);
                    proof {
                        assert(strs_model(ws@) =~= spec_failed_entries(om.take(i as int + 1)));
                    }
                },
            }
            i += 1;
        }
        proof {
            assert(om.take(n as int) =~= om);
            assert(pairs_model(es@) == spec_registry_entries(om));
            assert(strs_model(ws@) == spec_failed_entries(om));
        }
        Ok((es, ws))
    }

    /// The healthy entries of the named registry, each with its
    /// network-form bytes; skipped entries are dropped silently here.
    pub fn get_registry_entries(&self, registry_name: &str) -> (r: Result<
        Vec<(String, Vec<u8>)>,
        ProtocolError,
    >)
        ensures
            match r {
                Ok(es) => {
                    &&& spec_resolve(self@, registry_name@) matches Some(JsonModel::Obj(entries))
                        && pairs_model(es@) == spec_registry_entries(entries)
                },
                Err(e) => match spec_resolve(self@, registry_name@) {
                    Some(v) => {
                        &&& !(v is Obj)
                        &&& e matches ProtocolError::RegistryNotObject(s) && s@ == registry_name@
                    },
                    None => e matches ProtocolError::RegistryNotFound(s) && s@ == registry_name@,
                },
            },
    {
        match self.get_registry_entries_with_warnings(registry_name) {
            Ok((es, _)) => Ok(es),
            Err(e) => Err(e),
        }
    }

    /// The fixed set of registries a client needs to complete login.
    pub fn get_essential_registries(&self) -> (r: Vec<&'static str>)
        ensures
            r@.len() == 4,
            r@[0]@ == "minecraft:dimension_type"@,
            r@[1]@ == "minecraft:worldgen/biome"@,
            r@[2]@ == "minecraft:chat_type"@,
            r@[3]@ == "minecraft:damage_type"@,
    {
        let mut r: Vec<&'static str> = Vec::new();
        r.push("minecraft:dimension_type");
        r.push("minecraft:worldgen/biome");
        r.push("minecraft:chat_type");
        r.push("minecraft:damage_type");
        r
    }

    /// Every registry name of the backing document, bare keys
    /// normalized to fully-qualified form with the default namespace.
    #[verifier::loop_isolation(false)]
    pub fn get_all_registries(&self) -> (r: Vec<String>)
        ensures
            r@.len() == self@.len(),
            forall|i: int| 0 <= i < self@.len() ==> r@[i]@ == spec_normalized_name(self@[i].0),
    {
        proof {
            crate::json::lemma_obj_model_len(self.registries@);
        }
        let n = self.registries.len();
        let mut r: Vec<String> = Vec::new();
        let mut i: usize = 0;
        while i < n
            invariant
                i <= n,
                r@.len() == i,
                forall|k: int| 0 <= k < i ==> r@[k]@ == spec_normalized_name(self@[k].0),
            decreases n - i,
        {
            let key = self.registries[i].0.as_str();
            if has_colon(key) {
                r.push(key.to_owned());
            } else {
                let mut full = "minecraft:".to_owned();
                full.append(key);
                r.push(full);
            }
            i += 1;
        }
        r
    }
}

/// A registry name in fully-qualified form: kept as it stands when it
/// holds a colon, prefixed with the default namespace otherwise.
pub open spec fn spec_normalized_name(k: Seq<char>) -> Seq<char> {
    if spec_last_colon(k) >= 0 {
        k
    } else {
        "minecraft:"@ + k
    }
}

/// All dimension-type entries of the catalog, empty when the registry
/// is absent or malformed.
pub fn get_all_dimension_types(data: &GameData) -> (r: Vec<(String, Vec<u8>)>)
    ensures
        spec_fixed_registry_entries(data@, "minecraft:dimension_type"@, pairs_model(r@)),
{
    match data.get_registry_entries("minecraft:dimension_type") {
        Ok(es) => es,
        Err(_) => Vec::new(),
    }
}

/// All biome entries of the catalog, empty when the registry is absent
/// or malformed.
pub fn get_all_biomes(data: &GameData) -> (r: Vec<(String, Vec<u8>)>)
    ensures
        spec_fixed_registry_entries(data@, "minecraft:worldgen/biome"@, pairs_model(r@)),
{
    match data.get_registry_entries("minecraft:worldgen/biome") {
        Ok(es) => es,
        Err(_) => Vec::new(),
    }
}

/// All chat-type entries of the catalog, empty when the registry is
/// absent or malformed.
pub fn get_all_chat_types(data: &GameData) -> (r: Vec<(String, Vec<u8>)>)
    ensures
        spec_fixed_registry_entries(data@, "minecraft:chat_type"@, pairs_model(r@)),
{
    match data.get_registry_entries("minecraft:chat_type") {
        Ok(es) => es,
        Err(_) => Vec::new(),
    }
}

/// All damage-type entries of the catalog, empty when the registry is
/// absent or malformed.
pub fn get_all_damage_types(data: &GameData) -> (r: Vec<(String, Vec<u8>)>)
    ensures
        spec_fixed_registry_entries(data@, "minecraft:damage_type"@, pairs_model(r@)),
{
    match data.get_registry_entries("minecraft:damage_type") {
        Ok(es) => es,
        Err(_) => Vec::new(),
    }
}

/// What the per-registry accessors return: the registry's healthy
/// entries when the name resolves to an object, nothing otherwise.
pub open spec fn spec_fixed_registry_entries(
    regs: Seq<(Seq<char>, JsonModel)>,
    name: Seq<char>,
    result: Seq<(Seq<char>, Seq<u8>)>,
) -> bool {
    match spec_resolve(regs, name) {
        Some(JsonModel::Obj(entries)) => result == spec_registry_entries(entries),
        _ => result.len() == 0,
    }
}

} // verus!
