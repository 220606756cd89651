//! Properties that span the library's functions.
use crate::classify::{
    component_type_label, contains_any, deployable_event_label, deployable_primary_name,
    group_leaf, helicopter_name, soldier_name, vehicle_name, vehicle_part_keywords,
};
use crate::sqrb::{
    holds, magic, sqrb_contents, u16_at, u64_at, CountedPayload, SectionId, SectionPayload, SqrbError,
    SQRB_MAJOR,
};
use crate::text::{
    after_last, ascii_lower, bytes_of, contains_ci, decimal, digit_char, last_index_of, lower_all, matches_at,
    starts_with_ci,
};
use crate::announced_format;
use crate::compat::{deaths_credited, feed_event, kills_credited, CompatKillEvent, KillRecord};
use vstd::prelude::*;

verus! {

proof fn lemma_lower_idempotent(b: u8)
    ensures
        ascii_lower(ascii_lower(b)) == ascii_lower(b),
{
}

/// Keyword search ignores ASCII case: lower-casing the haystack or the needle
/// does not change whether the needle is found.
pub proof fn law_contains_ignores_ascii_case(haystack: Seq<u8>, needle: Seq<u8>)
    ensures
        contains_ci(haystack, needle) == contains_ci(lower_all(haystack), lower_all(needle)),
{
    let lh = lower_all(haystack);
    let ln = lower_all(needle);
    assert forall|at: int| matches_at(haystack, needle, at) == matches_at(lh, ln, at) by {
        if 0 <= at && at + needle.len() <= haystack.len() {
            assert forall|j: int| 0 <= j < needle.len() implies (ascii_lower(haystack[at + j])
                == ascii_lower(needle[j])) == (ascii_lower(#[trigger] lh[at + j]) == ascii_lower(
                ln[j],
            )) by {
                lemma_lower_idempotent(haystack[at + j]);
                lemma_lower_idempotent(needle[j]);
            }
            if matches_at(haystack, needle, at) {
                assert forall|j: int| 0 <= j < ln.len() implies ascii_lower(#[trigger] lh[at + j])
                    == ascii_lower(ln[j]) by {
                    assert(ascii_lower(haystack[at + j]) == ascii_lower(needle[j]));
                }
            }
            if matches_at(lh, ln, at) {
                assert forall|j: int| 0 <= j < needle.len() implies ascii_lower(
                    #[trigger] haystack[at + j],
                ) == ascii_lower(needle[j]) by {
                    assert(ascii_lower(lh[at + j]) == ascii_lower(ln[j]));
                }
            }
        }
    }
    if contains_ci(haystack, needle) && needle.len() > 0 {
        let at = choose|at: int| matches_at(haystack, needle, at);
        assert(matches_at(lh, ln, at));
    }
    if contains_ci(lh, ln) && needle.len() > 0 {
        let at = choose|at: int| matches_at(lh, ln, at);
        assert(matches_at(haystack, needle, at));
    }
}

/// Two names with the same ASCII lower-casing match a needle at the same
/// positions.
proof fn lemma_matches_same_folding(a: Seq<u8>, b: Seq<u8>, needle: Seq<u8>, at: int)
    requires
        lower_all(a) == lower_all(b),
    ensures
        matches_at(a, needle, at) == matches_at(b, needle, at),
{
    assert(a.len() == lower_all(a).len());
    assert(b.len() == lower_all(b).len());
    if 0 <= at && at + needle.len() <= a.len() {
        assert forall|j: int| 0 <= j < needle.len() implies ascii_lower(#[trigger] a[at + j])
            == ascii_lower(b[at + j]) by {
            assert(0 <= at + j < a.len());
            assert(lower_all(a)[at + j] == ascii_lower(a[at + j]));
            assert(lower_all(b)[at + j] == ascii_lower(b[at + j]));
        }
        if matches_at(a, needle, at) {
            assert forall|j: int| 0 <= j < needle.len() implies ascii_lower(#[trigger] b[at + j])
                == ascii_lower(needle[j]) by {
                assert(ascii_lower(a[at + j]) == ascii_lower(needle[j]));
            }
        }
        if matches_at(b, needle, at) {
            assert forall|j: int| 0 <= j < needle.len() implies ascii_lower(#[trigger] a[at + j])
                == ascii_lower(needle[j]) by {
                assert(ascii_lower(b[at + j]) == ascii_lower(needle[j]));
            }
        }
    }
}

/// Keyword search sees a name only through its ASCII lower-casing.
proof fn lemma_search_same_folding(a: Seq<u8>, b: Seq<u8>)
    requires
        lower_all(a) == lower_all(b),
    ensures
        forall|needle: Seq<u8>| #[trigger] contains_ci(a, needle) == contains_ci(b, needle),
        forall|prefix: Seq<u8>| #[trigger] starts_with_ci(a, prefix) == starts_with_ci(b, prefix),
        forall|keywords: Seq<&'static str>| #[trigger] contains_any(a, keywords) == contains_any(
            b,
            keywords,
        ),
{
    assert forall|needle: Seq<u8>| #[trigger] contains_ci(a, needle) == contains_ci(b, needle) by {
        if needle.len() > 0 {
            if contains_ci(a, needle) {
                let at = choose|at: int| matches_at(a, needle, at);
                lemma_matches_same_folding(a, b, needle, at);
            }
            if contains_ci(b, needle) {
                let at = choose|at: int| matches_at(b, needle, at);
                lemma_matches_same_folding(a, b, needle, at);
            }
        }
    }
    assert forall|prefix: Seq<u8>| #[trigger] starts_with_ci(a, prefix) == starts_with_ci(
        b,
        prefix,
    ) by {
        lemma_matches_same_folding(a, b, prefix, 0);
    }
}

/// Lower-casing twice is lower-casing once.
proof fn lemma_lower_all_idempotent(name: Seq<u8>)
    ensures
        lower_all(lower_all(name)) == lower_all(name),
{
    assert forall|i: int| 0 <= i < name.len() implies lower_all(lower_all(name))[i] == lower_all(
        name,
    )[i] by {
        lemma_lower_idempotent(name[i]);
    }
    assert(lower_all(lower_all(name)) =~= lower_all(name));
}

/// Classification ignores ASCII case: two names that differ only in the case
/// of ASCII letters (a name and its upper- or lower-cased form among them)
/// get the same answer from every classifier.
pub proof fn law_classifiers_ignore_ascii_case(a: Seq<u8>, b: Seq<u8>, hint: Option<&str>)
    requires
        lower_all(a) == lower_all(b),
    ensures
        soldier_name(a) == soldier_name(b),
        helicopter_name(a) == helicopter_name(b),
        deployable_primary_name(a) == deployable_primary_name(b),
        vehicle_name(a) == vehicle_name(b),
        deployable_event_label(a) == deployable_event_label(b),
        component_type_label(a, hint) == component_type_label(b, hint),
        soldier_name(a) == soldier_name(lower_all(a)),
        helicopter_name(a) == helicopter_name(lower_all(a)),
        deployable_primary_name(a) == deployable_primary_name(lower_all(a)),
        vehicle_name(a) == vehicle_name(lower_all(a)),
{
    lemma_search_same_folding(a, b);
    lemma_lower_all_idempotent(a);
    lemma_search_same_folding(a, lower_all(a));
}

/// A needle found in part of a name is found in the whole name.
proof fn lemma_search_in_context(before: Seq<u8>, name: Seq<u8>, after: Seq<u8>)
    ensures
        forall|needle: Seq<u8>|
            contains_ci(name, needle) ==> #[trigger] contains_ci(before + name + after, needle),
        forall|keywords: Seq<&'static str>|
            contains_any(name, keywords) ==> #[trigger] contains_any(
                before + name + after,
                keywords,
            ),
{
    let whole = before + name + after;
    assert forall|needle: Seq<u8>| contains_ci(name, needle) implies #[trigger] contains_ci(
        whole,
        needle,
    ) by {
        if needle.len() > 0 {
            let at = choose|at: int| matches_at(name, needle, at);
            let shifted = at + before.len();
            assert forall|j: int| 0 <= j < needle.len() implies ascii_lower(
                #[trigger] whole[shifted + j],
            ) == ascii_lower(needle[j]) by {
                assert(whole[shifted + j] == name[at + j]);
                assert(ascii_lower(name[at + j]) == ascii_lower(needle[j]));
            }
            assert(matches_at(whole, needle, shifted));
        }
    }
}

/// Text around a name never takes away a keyword match: a soldier or
/// helicopter name stays one inside a longer name.
pub proof fn law_keyword_match_survives_context(before: Seq<u8>, name: Seq<u8>, after: Seq<u8>)
    ensures
        soldier_name(name) ==> soldier_name(before + name + after),
        helicopter_name(name) ==> helicopter_name(before + name + after),
{
    lemma_search_in_context(before, name, after);
}

/// A name is a helicopter exactly when it contains, ignoring ASCII case, one
/// of the helicopter family keywords: Loach, UH-1, UH-60/Black Hawk, Mi-8,
/// Mi-17, CH-146, CH-178, Griffon, Raven, MRH-90, SA-330/Puma, Z-8, Z-9, or
/// the words helicopter and heli.
pub proof fn law_helicopter_families(name: Seq<u8>)
    ensures
        ({
            let families = seq![
                "loach", "uh1", "uh-1", "uh60", "uh-60", "blackhawk", "black hawk", "mi8", "mi-8",
                "mi17", "mi-17", "ch146", "ch-146", "ch178", "ch-178", "griffon", "raven", "mrh90",
                "mrh-90", "sa330", "sa-330", "puma", "z8", "z-8", "z9", "z-9", "helicopter", "heli",
            ];
            &&& forall|k: int|
                0 <= k < families.len() && contains_ci(name, bytes_of(#[trigger] families[k]))
                    ==> helicopter_name(name)
            &&& helicopter_name(name) ==> exists|k: int|
                0 <= k < families.len() && contains_ci(name, bytes_of(#[trigger] families[k]))
        }),
{
}

/// The label of a deployable: the first of these that the name contains,
/// ignoring ASCII case, decides it: `fobradio` gives RADIO, `_hab_` or
/// `hab_` HAB, `rallypoint` RALLY, `ammocrate` AMMO, `vehicle_repair`
/// REPAIR, `mortar` MORTAR, an emplacement weapon or mount (tripod, DShK,
/// Kord, Kornet, SPG-9, TOW, HJ-8, Mk 19, ZU-23, emplacement) EMPLACEMENT;
/// a name with none of them is a plain DEPLOYABLE.
pub proof fn law_deployable_event_labels(name: Seq<u8>)
    ensures
        ({
            let mentions = |w: &str| contains_ci(name, bytes_of(w));
            let mounts = seq![
                "tripod", "dshk", "kord", "kornet", "spg9", "tow", "hj-8", "mk19", "zu-23",
                "emplacement",
            ];
            let mounted = exists|k: int| 0 <= k < mounts.len() && mentions(#[trigger] mounts[k]);
            let label = deployable_event_label(name);
            &&& mentions("fobradio") ==> label == "RADIO"
            &&& !mentions("fobradio") && (mentions("_hab_") || mentions("hab_")) ==> label == "HAB"
            &&& !mentions("fobradio") && !mentions("_hab_") && !mentions("hab_") && mentions("rallypoint") ==> label
                == "RALLY"
            &&& !mentions("fobradio") && !mentions("_hab_") && !mentions("hab_") && !mentions("rallypoint") && mentions(
                "ammocrate",
            ) ==> label == "AMMO"
            &&& !mentions("fobradio") && !mentions("_hab_") && !mentions("hab_") && !mentions("rallypoint") && !mentions(
                "ammocrate",
            ) && mentions("vehicle_repair") ==> label == "REPAIR"
            &&& !mentions("fobradio") && !mentions("_hab_") && !mentions("hab_") && !mentions("rallypoint") && !mentions(
                "ammocrate",
            ) && !mentions("vehicle_repair") && mentions("mortar") ==> label == "MORTAR"
            &&& !mentions("fobradio") && !mentions("_hab_") && !mentions("hab_") && !mentions("rallypoint") && !mentions(
                "ammocrate",
            ) && !mentions("vehicle_repair") && !mentions("mortar") ==> label == if mounted {
                "EMPLACEMENT"
            } else {
                "DEPLOYABLE"
            }
        }),
{
}

/// The kind of a vehicle component: the first of these that holds decides
/// it, where the group path is searched for the component class and the
/// path hint, when there is one, for the word, both ignoring ASCII case:
/// `sqrotorcomponent` / rotor gives rotor, `sqvehicletrack` / track gives
/// track, `sqvehicleammobox` / ammorack gives ammorack, `sqvehiclewheel` /
/// wheel gives wheel, `sqvehicleseatcomponent` / seat gives seat; otherwise
/// it is a plain component.
pub proof fn law_component_kinds(group_path: Seq<u8>, hint: Option<&str>)
    ensures
        ({
            let path_has = |w: &str| contains_ci(group_path, bytes_of(w));
            let hint_has = |w: &str|
                match hint {
                    Some(h) => contains_ci(bytes_of(h), bytes_of(w)),
                    None => false,
                };
            let rotor = path_has("sqrotorcomponent") || hint_has("rotor");
            let track = path_has("sqvehicletrack") || hint_has("track");
            let ammorack = path_has("sqvehicleammobox") || hint_has("ammorack");
            let wheel = path_has("sqvehiclewheel") || hint_has("wheel");
            let seat = path_has("sqvehicleseatcomponent") || hint_has("seat");
            let kind = component_type_label(group_path, hint);
            &&& rotor ==> kind == "rotor"
            &&& !rotor && track ==> kind == "track"
            &&& !rotor && !track && ammorack ==> kind == "ammorack"
            &&& !rotor && !track && !ammorack && wheel ==> kind == "wheel"
            &&& !rotor && !track && !ammorack && !wheel && seat ==> kind == "seat"
            &&& !rotor && !track && !ammorack && !wheel && !seat ==> kind == "component"
        }),
{
}

/// A primary deployable is a name that contains, ignoring ASCII case, one
/// of the deployable keywords (FOB radio, HAB, ammo crate, vehicle repair
/// station, rally point, deployables and tripods, the mounted weapons), and
/// none of the exclusions: the generated child actors, weapons, mortar
/// baseplates, repair tools, and names that start with `bp_emplaced`.
pub proof fn law_primary_deployables(name: Seq<u8>)
    ensures
        ({
            let mentions = |w: &str| contains_ci(name, bytes_of(w));
            let keywords = seq![
                "fobradio", "_hab_", "hab_", "ammocrate", "vehicle_repair", "rallypoint",
                "_deployable", "_tripod", "dshk", "kord_tripod", "kornet_tripod", "spg9_tripod",
                "hj-8atgm_deployable", "hj-8atgm_tripod", "mk19_tripod", "zu-23_emplacement",
            ];
            let excluded = mentions("sqdeployablechildactor_gen_variable") || mentions("weapon") || mentions(
                "baseplate",
            ) || mentions("repairtool") || starts_with_ci(name, bytes_of("bp_emplaced"));
            deployable_primary_name(name) == (!excluded && exists|k: int|
                0 <= k < keywords.len() && mentions(#[trigger] keywords[k]))
        }),
{
}

/// A vehicle is a name that is neither a soldier nor a primary deployable,
/// names no vehicle part (seats, turrets, weapons, ...), and is a helicopter
/// or contains, ignoring ASCII case, one of the vehicle keywords.
pub proof fn law_vehicles(name: Seq<u8>)
    ensures
        ({
            let mentions = |w: &str| contains_ci(name, bytes_of(w));
            let parts = seq![
                "seat", "turret", "passenger", "weapon", "ammowep", "smokegenerator",
                "resourceweapon", "projectile", "commander", "cupola", "doorgun", "doorgun",
                "launcher", "destruction", "turret1", "turret2", "turret3", "cmdr", "pintle",
                "commander_turret",
            ];
            let kinds = seq![
                "m1151", "matv", "m1a1", "t72", "t62", "m60", "brdm", "lav", "btr", "aavp",
                "quadbike", "sprut", "bmp", "ural", "m939", "safir", "uh1", "mi17", "truck",
                "technical", "mtlb", "humvee", "tank", "logistics", "heli", "loach",
            ];
            vehicle_name(name) == (!mentions("soldier") && !deployable_primary_name(name) && !(exists|
                k: int,
            | 0 <= k < parts.len() && mentions(#[trigger] parts[k])) && (helicopter_name(name) || exists|
                k: int,
            | 0 <= k < kinds.len() && mentions(#[trigger] kinds[k])))
        }),
{
}

/// What a feed event records of its kill: the kill's second; the victim's
/// and the killer's names, `Unknown` where the kill has none; their guids
/// in decimal, `null` where the kill has none; and whether the kill was an
/// incap, as the kill recorded it, `false` where it recorded nothing.
pub proof fn law_feed_event_fields(e: CompatKillEvent, k: KillRecord)
    requires
        feed_event(e, k),
    ensures
        e.timestamp == k.second,
        e.was_incap == (k.was_incap == Some(true)),
        k.was_incap == Some(false) ==> !e.was_incap,
        k.victim_name matches Some(n) ==> e.victim_name@ == n@,
        k.victim_name is None ==> e.victim_name@ == "Unknown"@,
        k.killer_name matches Some(n) ==> e.killer_name@ == n@,
        k.killer_name is None ==> e.killer_name@ == "Unknown"@,
        k.victim_guid matches Some(g) ==> e.victim_guid_str@ == decimal(g as nat),
        k.victim_guid is None ==> e.victim_guid_str@ == "null"@,
        k.killer_guid matches Some(g) ==> e.killer_guid_str@ == decimal(g as nat),
        k.killer_guid is None ==> e.killer_guid_str@ == "null"@,
{
}

/// One more kill adds one kill to its killer's count and one death to its
/// victim's, where that player is named (a name that is neither empty nor
/// `Unknown`); nobody else's counts change, and `Unknown` is never credited.
pub proof fn law_kill_credit(ks: Seq<KillRecord>, k: KillRecord, name: Seq<char>)
    ensures
        kills_credited(ks.push(k), name) == kills_credited(ks, name) + if k.killer_name matches Some(
            n,
        ) && n@ == name && name.len() > 0 && name != "Unknown"@ {
            1int
        } else {
            0int
        },
        deaths_credited(ks.push(k), name) == deaths_credited(ks, name) + if k.victim_name matches Some(
            n,
        ) && n@ == name && name.len() > 0 && name != "Unknown"@ {
            1int
        } else {
            0int
        },
        kills_credited(ks, "Unknown"@) == 0,
        deaths_credited(ks, "Unknown"@) == 0,
    decreases ks.len(),
{
    assert(ks.push(k).drop_last() =~= ks);
    if ks.len() > 0 {
        law_kill_credit(ks.drop_last(), ks.last(), name);
        assert(ks.drop_last().push(ks.last()) =~= ks);
    }
}

/// A section made from a counted collection records the collection's
/// length (truncated to 32 bits) as its item count, not its payload's size,
/// and carries the collection's serialized bytes as its payload.
pub proof fn law_sections_count_items(s: SectionPayload, c: CountedPayload)
    requires
        holds(s, c),
    ensures
        s.item_count == c.items as u32,
        s.raw@ == c.raw@,
{
}

/// A helicopter name that names no vehicle part, and is neither a soldier nor
/// a primary deployable, is a vehicle.
pub proof fn law_helicopters_are_vehicles(name: Seq<u8>)
    requires
        helicopter_name(name),
        !soldier_name(name),
        !deployable_primary_name(name),
        !contains_any(name, vehicle_part_keywords()),
    ensures
        vehicle_name(name),
{
}

/// A vehicle is never a soldier nor a primary deployable.
pub proof fn law_vehicles_are_not_soldiers_or_deployables(name: Seq<u8>)
    requires
        vehicle_name(name),
    ensures
        !soldier_name(name),
        !deployable_primary_name(name),
{
}

proof fn lemma_no_occurrence(s: Seq<u8>, b: u8)
    ensures
        (last_index_of(s, b) == -1) == (forall|j: int| 0 <= j < s.len() ==> s[j] != b),
    decreases s.len(),
{
    if s.len() > 0 {
        lemma_no_occurrence(s.drop_last(), b);
        if last_index_of(s, b) == -1 {
            assert forall|j: int| 0 <= j < s.len() implies s[j] != b by {
                if j < s.len() - 1 {
                    assert(s[j] == s.drop_last()[j]);
                }
            }
        } else {
            crate::text::lemma_last_index_of(s, b);
        }
    }
}

/// What follows the last occurrence of `b` does not contain `b`.
pub proof fn law_after_last_has_no_separator(s: Seq<u8>, b: u8)
    ensures
        forall|j: int| 0 <= j < after_last(s, b).len() ==> after_last(s, b)[j] != b,
        last_index_of(after_last(s, b), b) == -1,
{
    crate::text::lemma_last_index_of(s, b);
    let r = after_last(s, b);
    assert forall|j: int| 0 <= j < r.len() implies r[j] != b by {
        assert(r[j] == s[last_index_of(s, b) + 1 + j]);
    }
    lemma_no_occurrence(r, b);
}

/// Normalizing a class name twice gives what normalizing it once gives: the
/// part after the last `.` holds no `.`.
pub proof fn law_normalize_idempotent(name: Seq<u8>)
    ensures
        after_last(after_last(name, 46), 46) == after_last(name, 46),
{
    law_after_last_has_no_separator(name, 46);
    let r = after_last(name, 46);
    assert(r.subrange(0, r.len() as int) =~= r);
}

/// The leaf of an export path is a suffix of it and holds no `.`; where the
/// path holds no `.`, the leaf holds no `/` either.
pub proof fn law_group_leaf(path: Seq<u8>)
    ensures
        group_leaf(path).len() <= path.len(),
        group_leaf(path) == path.subrange(
            path.len() - group_leaf(path).len(),
            path.len() as int,
        ),
        forall|j: int| 0 <= j < group_leaf(path).len() ==> group_leaf(path)[j] != 46,
        last_index_of(path, 46) == -1 ==> forall|j: int|
            0 <= j < group_leaf(path).len() ==> group_leaf(path)[j] != 47,
{
    crate::text::lemma_last_index_of(path, 46);
    crate::text::lemma_last_index_of(path, 47);
    law_after_last_has_no_separator(path, 46);
    law_after_last_has_no_separator(path, 47);
    let leaf = group_leaf(path);
    if last_index_of(path, 46) < 0 {
        lemma_no_occurrence(path, 46);
        assert forall|j: int| 0 <= j < leaf.len() implies leaf[j] != 46 by {
            assert(leaf[j] == path[last_index_of(path, 47) + 1 + j]);
        }
    }
    assert(leaf =~= path.subrange(path.len() - leaf.len(), path.len() as int));
}

/// A bundle file's format does not depend on the ASCII case of its name.
pub proof fn law_format_ignores_ascii_case(name: Seq<u8>)
    ensures
        announced_format(name) == announced_format(lower_all(name)),
{
    lemma_lower_all_idempotent(name);
}

/// The directory ids of the sections, as the file format fixes them.
pub proof fn law_section_wire_codes()
    ensures
        SectionId::Manifest.wire_code() == 1,
        SectionId::Teams.wire_code() == 2,
        SectionId::Squads.wire_code() == 3,
        SectionId::Players.wire_code() == 4,
        SectionId::Vehicles.wire_code() == 5,
        SectionId::Helicopters.wire_code() == 6,
        SectionId::Deployables.wire_code() == 7,
        SectionId::Components.wire_code() == 8,
        SectionId::PlayerTracks.wire_code() == 9,
        SectionId::VehicleTracks.wire_code() == 10,
        SectionId::HelicopterTracks.wire_code() == 11,
        SectionId::Kills.wire_code() == 12,
        SectionId::Deployments.wire_code() == 13,
        SectionId::SeatChanges.wire_code() == 14,
        SectionId::ComponentStates.wire_code() == 15,
        SectionId::VehicleStates.wire_code() == 16,
        SectionId::WeaponStates.wire_code() == 17,
        SectionId::Properties.wire_code() == 18,
        SectionId::Diagnostics.wire_code() == 19,
{
}

/// Each section has its own directory id, so an id names one section.
pub proof fn law_section_codes_distinct(a: SectionId, b: SectionId)
    ensures
        a.wire_code() == b.wire_code() ==> a == b,
        1 <= a.wire_code() <= 19,
{
}

/// An image whose header still holds the zero placeholder for the directory
/// offset (the header was never patched) is refused as out of range.
pub proof fn law_unpatched_header_rejected(image: Seq<u8>)
    requires
        image.len() >= 32,
        image.len() <= usize::MAX,
        image.take(4) == magic(),
        u16_at(image, 4) == SQRB_MAJOR,
        u64_at(image, 12) == 0,
    ensures
        sqrb_contents(image) == Err::<Seq<(u16, Seq<u8>)>, _>(
            SqrbError::DirectoryOutOfRange { offset: 0, file_size: image.len() as usize },
        ),
{
}
proof fn lemma_decimal_len(n: nat)
    ensures
        decimal(n).len() >= 1,
        (decimal(n).len() == 1) == (n < 10),
    decreases n,
{
    if n >= 10 {
        lemma_decimal_len(n / 10);
    }
}

proof fn lemma_digit_char_injective(a: nat, b: nat)
    requires
        a < 10,
        b < 10,
        digit_char(a) == digit_char(b),
    ensures
        a == b,
{
    assert(digit_char(a) as u32 == (48 + a) as u32);
    assert(digit_char(b) as u32 == (48 + b) as u32);
}

/// Different numbers have different decimal texts, so grouping kills by
/// second is grouping them by the second's text.
pub proof fn law_decimal_injective(a: nat, b: nat)
    requires
        decimal(a) == decimal(b),
    ensures
        a == b,
    decreases a,
{
    lemma_decimal_len(a);
    lemma_decimal_len(b);
    if a < 10 {
        assert(b < 10);
        assert(decimal(a) == seq![digit_char(a)]);
        assert(decimal(b) == seq![digit_char(b)]);
        assert(seq![digit_char(a)][0] == digit_char(a));
        assert(seq![digit_char(b)][0] == digit_char(b));
        assert(digit_char(a) == digit_char(b));
        lemma_digit_char_injective(a, b);
    } else {
        assert(b >= 10);
        assert(decimal(a) == decimal(a / 10).push(digit_char(a % 10)));
        assert(decimal(b) == decimal(b / 10).push(digit_char(b % 10)));
        assert(decimal(a).drop_last() =~= decimal(a / 10));
        assert(decimal(b).drop_last() =~= decimal(b / 10));
        let da = decimal(a / 10).push(digit_char(a % 10));
        let db = decimal(b / 10).push(digit_char(b % 10));
        assert(da[da.len() - 1] == digit_char(a % 10));
        assert(db[db.len() - 1] == digit_char(b % 10));
        assert(digit_char(a % 10) == digit_char(b % 10));
        lemma_digit_char_injective(a % 10, b % 10);
        law_decimal_injective(a / 10, b / 10);
    }
}
} // verus!
