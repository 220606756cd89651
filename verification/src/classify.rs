//! Classification of replay class names (soldiers, vehicles, helicopters,
//! deployables, vehicle components) by case-insensitive keyword search.
use crate::text::{
    after_last, after_last_ascii, bytes_of, contains_ci, contains_ignore_ascii_case,
    last_index_of, rfind_byte, starts_with_ci, starts_with_ignore_ascii_case,
};
use vstd::utf8::encode_utf8;
use vstd::prelude::*;

verus! {

/// Some keyword of `keywords` occurs in `name`, ignoring ASCII case.
pub open spec fn contains_any(name: Seq<u8>, keywords: Seq<&'static str>) -> bool {
    exists|k: int| 0 <= k < keywords.len() && contains_ci(name, bytes_of(#[trigger] keywords[k]))
}

pub open spec fn helicopter_keywords() -> Seq<&'static str> {
    seq![
        "loach", "uh1", "uh-1", "uh60", "uh-60", "blackhawk", "black hawk", "mi8", "mi-8", "mi17",
        "mi-17", "ch146", "ch-146", "ch178", "ch-178", "griffon", "raven", "mrh90", "mrh-90",
        "sa330", "sa-330", "puma", "z8", "z-8", "z9", "z-9", "helicopter", "heli",
    ]
}

/// Keywords that mark a deployable as secondary: never a primary deployable.
pub open spec fn deployable_exclusion_keywords() -> Seq<&'static str> {
    seq!["weapon", "baseplate", "repairtool"]
}

pub open spec fn deployable_keywords() -> Seq<&'static str> {
    seq![
        "fobradio", "_hab_", "hab_", "ammocrate", "vehicle_repair", "rallypoint", "_deployable",
        "_tripod", "dshk", "kord_tripod", "kornet_tripod", "spg9_tripod", "hj-8atgm_deployable",
        "hj-8atgm_tripod", "mk19_tripod", "zu-23_emplacement",
    ]
}

/// Keywords of vehicle parts (seats, turrets, weapons, ...): never a vehicle.
pub open spec fn vehicle_part_keywords() -> Seq<&'static str> {
    seq![
        "seat", "turret", "passenger", "weapon", "ammowep", "smokegenerator", "resourceweapon",
        "projectile", "commander", "cupola", "doorgun", "doorgun", "launcher", "destruction",
        "turret1", "turret2", "turret3", "cmdr", "pintle", "commander_turret",
    ]
}

pub open spec fn vehicle_keywords() -> Seq<&'static str> {
    seq![
        "m1151", "matv", "m1a1", "t72", "t62", "m60", "brdm", "lav", "btr", "aavp", "quadbike",
        "sprut", "bmp", "ural", "m939", "safir", "uh1", "mi17", "truck", "technical", "mtlb",
        "humvee", "tank", "logistics", "heli", "loach",
    ]
}

pub open spec fn emplacement_keywords() -> Seq<&'static str> {
    seq!["tripod", "dshk", "kord", "kornet", "spg9", "tow", "hj-8", "mk19", "zu-23", "emplacement"]
}

pub open spec fn soldier_name(name: Seq<u8>) -> bool {
    contains_ci(name, bytes_of("soldier"))
}

pub open spec fn helicopter_name(name: Seq<u8>) -> bool {
    contains_any(name, helicopter_keywords())
}

pub open spec fn deployable_primary_name(name: Seq<u8>) -> bool {
    if contains_ci(name, bytes_of("sqdeployablechildactor_gen_variable")) {
        false
    } else if contains_any(name, deployable_exclusion_keywords()) {
        false
    } else if starts_with_ci(name, bytes_of("bp_emplaced")) {
        false
    } else {
        contains_any(name, deployable_keywords())
    }
}

pub open spec fn vehicle_name(name: Seq<u8>) -> bool {
    if soldier_name(name) || deployable_primary_name(name) {
        false
    } else if contains_any(name, vehicle_part_keywords()) {
        false
    } else if helicopter_name(name) {
        true
    } else {
        contains_any(name, vehicle_keywords())
    }
}

pub open spec fn deployable_event_label(name: Seq<u8>) -> &'static str {
    if contains_ci(name, bytes_of("fobradio")) {
        "RADIO"
    } else if contains_ci(name, bytes_of("_hab_")) || contains_ci(name, bytes_of("hab_")) {
        "HAB"
    } else if contains_ci(name, bytes_of("rallypoint")) {
        "RALLY"
    } else if contains_ci(name, bytes_of("ammocrate")) {
        "AMMO"
    } else if contains_ci(name, bytes_of("vehicle_repair")) {
        "REPAIR"
    } else if contains_ci(name, bytes_of("mortar")) {
        "MORTAR"
    } else if contains_any(name, emplacement_keywords()) {
        "EMPLACEMENT"
    } else {
        "DEPLOYABLE"
    }
}

/// The optional path hint holds `needle`, ignoring ASCII case.
pub open spec fn hint_contains(hint: Option<&str>, needle: &str) -> bool {
    match hint {
        Some(h) => contains_ci(bytes_of(h), bytes_of(needle)),
        None => false,
    }
}

pub open spec fn component_type_label(group_path: Seq<u8>, hint: Option<&str>) -> &'static str {
    if contains_ci(group_path, bytes_of("sqrotorcomponent")) || hint_contains(hint, "rotor") {
        "rotor"
    } else if contains_ci(group_path, bytes_of("sqvehicletrack")) || hint_contains(hint, "track") {
        "track"
    } else if contains_ci(group_path, bytes_of("sqvehicleammobox")) || hint_contains(
        hint,
        "ammorack",
    ) {
        "ammorack"
    } else if contains_ci(group_path, bytes_of("sqvehiclewheel")) || hint_contains(hint, "wheel") {
        "wheel"
    } else if contains_ci(group_path, bytes_of("sqvehicleseatcomponent")) || hint_contains(
        hint,
        "seat",
    ) {
        "seat"
    } else {
        "component"
    }
}

/// The leaf of an export path: what follows the last `.`, else what follows
/// the last `/`, else the whole path.
pub open spec fn group_leaf(path: Seq<u8>) -> Seq<u8> {
    if last_index_of(path, 46) >= 0 {
        after_last(path, 46)
    } else {
        after_last(path, 47)
    }
}

/// Whether some keyword of `keywords` occurs in `name`, ignoring ASCII case.
fn contains_any_of(name: &str, keywords: &[&'static str]) -> (res: bool)
    ensures
        res == contains_any(bytes_of(name), keywords@),
{
    let mut k: usize = 0;
    while k < keywords.len()
        invariant
            k <= keywords@.len(),
            forall|i: int|
                0 <= i < k ==> !contains_ci(bytes_of(name), bytes_of(#[trigger] keywords@[i])),
        decreases keywords@.len() - k,
    {
        if contains_ignore_ascii_case(name, keywords[k]) {
            return true;
        }
        k += 1;
    }
    false
}

pub fn is_soldier_type(name: &str) -> (res: bool)
    ensures
        res == soldier_name(bytes_of(name)),
{
    contains_ignore_ascii_case(name, "soldier")
}

pub fn is_helicopter_type(name: &str) -> (res: bool)
    ensures
        res == helicopter_name(bytes_of(name)),
{
    let keywords: [&'static str; 28] = [
        "loach",
        "uh1",
        "uh-1",
        "uh60",
        "uh-60",
        "blackhawk",
        "black hawk",
        "mi8",
        "mi-8",
        "mi17",
        "mi-17",
        "ch146",
        "ch-146",
        "ch178",
        "ch-178",
        "griffon",
        "raven",
        "mrh90",
        "mrh-90",
        "sa330",
        "sa-330",
        "puma",
        "z8",
        "z-8",
        "z9",
        "z-9",
        "helicopter",
        "heli",
    ];
    assert(keywords@ =~= helicopter_keywords());
    contains_any_of(name, &keywords)
}

pub fn is_deployable_primary_type(name: &str) -> (res: bool)
    ensures
        res == deployable_primary_name(bytes_of(name)),
{
    if contains_ignore_ascii_case(name, "sqdeployablechildactor_gen_variable") {
        return false;
    }
    let exclusions: [&'static str; 3] = ["weapon", "baseplate", "repairtool"];
    assert(exclusions@ =~= deployable_exclusion_keywords());
    if contains_any_of(name, &exclusions) {
        return false;
    }
    if starts_with_ignore_ascii_case(name, "bp_emplaced") {
        return false;
    }
    let keywords: [&'static str; 16] = [
        "fobradio",
        "_hab_",
        "hab_",
        "ammocrate",
        "vehicle_repair",
        "rallypoint",
        "_deployable",
        "_tripod",
        "dshk",
        "kord_tripod",
        "kornet_tripod",
        "spg9_tripod",
        "hj-8atgm_deployable",
        "hj-8atgm_tripod",
        "mk19_tripod",
        "zu-23_emplacement",
    ];
    assert(keywords@ =~= deployable_keywords());
    contains_any_of(name, &keywords)
}

pub fn is_vehicle_type(name: &str) -> (res: bool)
    ensures
        res == vehicle_name(bytes_of(name)),
        res ==> !soldier_name(bytes_of(name)) && !deployable_primary_name(bytes_of(name)),
{
    if is_soldier_type(name) || is_deployable_primary_type(name) {
        return false;
    }
    let parts: [&'static str; 20] = [
        "seat",
        "turret",
        "passenger",
        "weapon",
        "ammowep",
        "smokegenerator",
        "resourceweapon",
        "projectile",
        "commander",
        "cupola",
        "doorgun",
        "doorgun",
        "launcher",
        "destruction",
        "turret1",
        "turret2",
        "turret3",
        "cmdr",
        "pintle",
        "commander_turret",
    ];
    assert(parts@ =~= vehicle_part_keywords());
    if contains_any_of(name, &parts) {
        return false;
    }
    if is_helicopter_type(name) {
        return true;
    }
    let keywords: [&'static str; 26] = [
        "m1151",
        "matv",
        "m1a1",
        "t72",
        "t62",
        "m60",
        "brdm",
        "lav",
        "btr",
        "aavp",
        "quadbike",
        "sprut",
        "bmp",
        "ural",
        "m939",
        "safir",
        "uh1",
        "mi17",
        "truck",
        "technical",
        "mtlb",
        "humvee",
        "tank",
        "logistics",
        "heli",
        "loach",
    ];
    assert(keywords@ =~= vehicle_keywords());
    contains_any_of(name, &keywords)
}

/// The event label of a deployable class name: `RADIO`, `HAB`, `RALLY`,
/// `AMMO`, `REPAIR`, `MORTAR`, `EMPLACEMENT` or `DEPLOYABLE`.
pub fn classify_deployable_event_type(name: &str) -> (res: &'static str)
    ensures
        res == deployable_event_label(bytes_of(name)),
{
    if contains_ignore_ascii_case(name, "fobradio") {
        "RADIO"
    } else if contains_ignore_ascii_case(name, "_hab_") || contains_ignore_ascii_case(name, "hab_") {
        "HAB"
    } else if contains_ignore_ascii_case(name, "rallypoint") {
        "RALLY"
    } else if contains_ignore_ascii_case(name, "ammocrate") {
        "AMMO"
    } else if contains_ignore_ascii_case(name, "vehicle_repair") {
        "REPAIR"
    } else if contains_ignore_ascii_case(name, "mortar") {
        "MORTAR"
    } else {
        let keywords: [&'static str; 10] = [
            "tripod",
            "dshk",
            "kord",
            "kornet",
            "spg9",
            "tow",
            "hj-8",
            "mk19",
            "zu-23",
            "emplacement",
        ];
        assert(keywords@ =~= emplacement_keywords());
        if contains_any_of(name, &keywords) {
            "EMPLACEMENT"
        } else {
            "DEPLOYABLE"
        }
    }
}

fn hint_has(hint: Option<&str>, needle: &str) -> (res: bool)
    ensures
        res == hint_contains(hint, needle),
{
    match hint {
        Some(h) => contains_ignore_ascii_case(h, needle),
        None => false,
    }
}

/// The kind of a vehicle component, from its export group path and an
/// optional path hint: `rotor`, `track`, `ammorack`, `wheel`, `seat` or
/// `component`.
pub fn infer_component_type_name(group_path: &str, path_hint: Option<&str>) -> (res: &'static str)
    ensures
        res == component_type_label(bytes_of(group_path), path_hint),
{
    if contains_ignore_ascii_case(group_path, "sqrotorcomponent") || hint_has(path_hint, "rotor") {
        "rotor"
    } else if contains_ignore_ascii_case(group_path, "sqvehicletrack") || hint_has(
        path_hint,
        "track",
    ) {
        "track"
    } else if contains_ignore_ascii_case(group_path, "sqvehicleammobox") || hint_has(
        path_hint,
        "ammorack",
    ) {
        "ammorack"
    } else if contains_ignore_ascii_case(group_path, "sqvehiclewheel") || hint_has(
        path_hint,
        "wheel",
    ) {
        "wheel"
    } else if contains_ignore_ascii_case(group_path, "sqvehicleseatcomponent") || hint_has(
        path_hint,
        "seat",
    ) {
        "seat"
    } else {
        "component"
    }
}

/// The component kind of `infer_component_type_name`, as an owned string.
pub fn infer_component_type(group_path: &str, path_hint: Option<&str>) -> (res: String)
    ensures
        res@ == component_type_label(bytes_of(group_path), path_hint)@,
{
    String::from_str(infer_component_type_name(group_path, path_hint))
}

/// The leaf of an export path: what follows the last `.`, else what follows
/// the last `/`, else the whole path.
pub fn infer_group_leaf(path: &str) -> (res: &str)
    ensures
        bytes_of(res) == group_leaf(bytes_of(path)),
{
    match rfind_byte(path.as_bytes(), 46) {
        Some(_) => after_last_ascii(path, 46),
        None => after_last_ascii(path, 47),
    }
}

/// The class name after its last `.` (all of it when there is none); `None`
/// for the empty name.
pub fn normalize_type(name: &str) -> (res: Option<String>)
    ensures
        match res {
            None => bytes_of(name).len() == 0,
            Some(r) => bytes_of(name).len() > 0 && encode_utf8(r@) == after_last(bytes_of(name), 46),
        },
{
    if name.is_empty() {
        return None;
    }
    let leaf = after_last_ascii(name, 46);
    let owned = leaf.to_owned();
    Some(owned)
}

/// Cached classification bitmask for an export group's class name: one bit
/// per predicate, computed once per class name.
#[derive(Debug, Clone, Copy, Default, PartialEq, Eq)]
pub struct ClassifyFlags(pub u8);

/// The bitmask that records the four classifications of a name.
pub open spec fn flag_bits(soldier: bool, vehicle: bool, helicopter: bool, deployable: bool) -> u8 {
    ((if soldier { 1u8 } else { 0u8 }) + (if vehicle { 2u8 } else { 0u8 }) + (if helicopter {
        4u8
    } else {
        0u8
    }) + (if deployable { 8u8 } else { 0u8 })) as u8
}

impl ClassifyFlags {
    pub const SOLDIER: u8 = 1;

    pub const VEHICLE: u8 = 2;

    pub const HELICOPTER: u8 = 4;

    pub const DEPLOYABLE_PRIMARY: u8 = 8;

    /// The bit `bit` is set.
    pub open spec fn has(self, bit: u8) -> bool {
        self.0 & bit != 0
    }

    /// The flags of an export group's leaf class name.
    pub fn from_group_leaf(leaf: &str) -> (res: Self)
        ensures
            res.0 == flag_bits(
                soldier_name(bytes_of(leaf)),
                vehicle_name(bytes_of(leaf)),
                helicopter_name(bytes_of(leaf)),
                deployable_primary_name(bytes_of(leaf)),
            ),
            res.has(Self::SOLDIER) == soldier_name(bytes_of(leaf)),
            res.has(Self::VEHICLE) == vehicle_name(bytes_of(leaf)),
            res.has(Self::HELICOPTER) == helicopter_name(bytes_of(leaf)),
            res.has(Self::DEPLOYABLE_PRIMARY) == deployable_primary_name(bytes_of(leaf)),
    {
        let s = is_soldier_type(leaf);
        let h = is_helicopter_type(leaf);
        let v = is_vehicle_type(leaf);
        let d = is_deployable_primary_type(leaf);
        let bits = Self::combine(s, v, h, d);
        proof {
            lemma_flag_bits(s, v, h, d);
        }
        ClassifyFlags(bits)
    }

    fn combine(soldier: bool, vehicle: bool, helicopter: bool, deployable: bool) -> (bits: u8)
        ensures
            bits == flag_bits(soldier, vehicle, helicopter, deployable),
    {
        let bits: u8 = 0u8 | (if soldier {
            Self::SOLDIER
        } else {
            0
        });
        let bits: u8 = bits | (if helicopter {
            Self::HELICOPTER
        } else {
            0
        });
        let bits: u8 = bits | (if vehicle {
            Self::VEHICLE
        } else {
            0
        });
        let bits: u8 = bits | (if deployable {
            Self::DEPLOYABLE_PRIMARY
        } else {
            0
        });
        proof {
            lemma_flag_bits(soldier, vehicle, helicopter, deployable);
            assert(forall|x: u8| 0u8 | x == x) by (bit_vector);
        }
        bits
    }

    pub fn is_soldier(self) -> (res: bool)
        ensures
            res == self.has(Self::SOLDIER),
    {
        self.0 & Self::SOLDIER != 0
    }

    pub fn is_vehicle(self) -> (res: bool)
        ensures
            res == self.has(Self::VEHICLE),
    {
        self.0 & Self::VEHICLE != 0
    }

    pub fn is_helicopter(self) -> (res: bool)
        ensures
            res == self.has(Self::HELICOPTER),
    {
        self.0 & Self::HELICOPTER != 0
    }

    pub fn is_deployable_primary(self) -> (res: bool)
        ensures
            res == self.has(Self::DEPLOYABLE_PRIMARY),
    {
        self.0 & Self::DEPLOYABLE_PRIMARY != 0
    }
}

/// The four bits of a flag mask are independent: OR-ing them gives the sum,
/// and each is read back unchanged.
pub proof fn lemma_flag_bits(soldier: bool, vehicle: bool, helicopter: bool, deployable: bool)
    ensures
        flag_bits(soldier, vehicle, helicopter, deployable) == (((if soldier { 1u8 } else { 0u8 })
            | (if helicopter { 4u8 } else { 0u8 })) | (if vehicle { 2u8 } else { 0u8 })) | (
        if deployable {
            8u8
        } else {
            0u8
        }),
        (flag_bits(soldier, vehicle, helicopter, deployable) & 1u8 != 0) == soldier,
        (flag_bits(soldier, vehicle, helicopter, deployable) & 2u8 != 0) == vehicle,
        (flag_bits(soldier, vehicle, helicopter, deployable) & 4u8 != 0) == helicopter,
        (flag_bits(soldier, vehicle, helicopter, deployable) & 8u8 != 0) == deployable,
{
    let b = flag_bits(soldier, vehicle, helicopter, deployable);
    assert(b == ((if soldier { 1u8 } else { 0u8 }) + (if vehicle { 2u8 } else { 0u8 }) + (
    if helicopter {
        4u8
    } else {
        0u8
    }) + (if deployable { 8u8 } else { 0u8 })) as u8);
    assert({
        let b2 = ((if soldier { 1u8 } else { 0u8 }) + (if vehicle { 2u8 } else { 0u8 }) + (
        if helicopter {
            4u8
        } else {
            0u8
        }) + (if deployable { 8u8 } else { 0u8 })) as u8;
        &&& b2 == (((if soldier { 1u8 } else { 0u8 }) | (if helicopter { 4u8 } else { 0u8 })) | (
        if vehicle {
            2u8
        } else {
            0u8
        })) | (if deployable { 8u8 } else { 0u8 })
        &&& (b2 & 1u8 != 0) == soldier
        &&& (b2 & 2u8 != 0) == vehicle
        &&& (b2 & 4u8 != 0) == helicopter
        &&& (b2 & 8u8 != 0) == deployable
    }) by (bit_vector);
}

} // verus!
