use squadreplay::classify::{
    classify_deployable_event_type, infer_component_type, infer_component_type_name,
    infer_group_leaf, is_deployable_primary_type, is_helicopter_type, is_soldier_type,
    is_vehicle_type, normalize_type, ClassifyFlags,
};

#[test]
fn vehicle_seat_components_are_classified_as_seats() {
    assert_eq!(
        infer_component_type("/Script/Squad.SQVehicleSeatComponent", None),
        "seat"
    );
}

#[test]
fn helicopter_classification_covers_current_families() {
    for name in [
        "BP_UH60M_C",
        "BP_CH146_Utility_C",
        "BP_CH178_Transport_C",
        "BP_Mi8MTV5_C",
        "BP_MRH90_C",
        "BP_SA330_C",
        "BP_Z8G_C",
        "BP_Z9A_C",
    ] {
        assert!(is_helicopter_type(name), "{name} should be a helicopter");
        assert!(is_vehicle_type(name), "{name} should be a vehicle");
    }
}

#[test]
fn soldiers_are_found_in_any_case() {
    assert!(is_soldier_type("BP_Soldier_RUS"));
    assert!(is_soldier_type("bp_SOLDIER_usa_medickit"));
    assert!(!is_soldier_type("SQPlayerState"));
    assert!(!is_soldier_type(""));
}

#[test]
fn common_vehicles_are_vehicles() {
    for name in [
        "BP_BTR80_RUS",
        "BP_MRAP_M1151_USA",
        "BP_Logi_Ural375_RUS",
        "BP_BRDM2_RUS",
        "BP_T72B3_RUS",
    ] {
        assert!(is_vehicle_type(name), "{name} should be a vehicle");
        assert!(!is_helicopter_type(name), "{name} is no helicopter");
    }
    for name in ["SQGameState", "SQPlayerState", "GameNetworkManager", "WorldSettings"] {
        assert!(!is_vehicle_type(name), "{name} is no vehicle");
    }
}

#[test]
fn vehicle_parts_and_soldiers_are_not_vehicles() {
    assert!(!is_vehicle_type("BP_BTR80_Turret_C"));
    assert!(!is_vehicle_type("BP_UH60_DoorGun"));
    assert!(!is_vehicle_type("BP_Soldier_Tank_Crew"));
    assert!(!is_vehicle_type("BP_Truck_FOBRadio"));
}

#[test]
fn primary_deployables() {
    assert!(is_deployable_primary_type("BP_FOBRadio_RUS"));
    assert!(is_deployable_primary_type("BP_HAB_RUS"));
    assert!(is_deployable_primary_type("BP_Deployable_ATGM_RUS"));
    assert!(!is_deployable_primary_type("BP_Emplaced_Kord_Tripod"));
    assert!(!is_deployable_primary_type("BP_Kord_Tripod_Weapon"));
    assert!(!is_deployable_primary_type("SQDeployableChildActor_GEN_VARIABLE_HAB"));
    assert!(!is_deployable_primary_type("SQGameState"));
}

#[test]
fn deployable_event_labels() {
    assert_eq!(classify_deployable_event_type("BP_FOBRadio_RUS"), "RADIO");
    assert_eq!(classify_deployable_event_type("BP_HAB_RUS"), "HAB");
    assert_eq!(classify_deployable_event_type("BP_RallyPoint"), "RALLY");
    assert_eq!(classify_deployable_event_type("BP_AmmoCrate_Small"), "AMMO");
    assert_eq!(classify_deployable_event_type("BP_Vehicle_Repair_Station"), "REPAIR");
    assert_eq!(classify_deployable_event_type("BP_Deployable_MortarTube_RUS"), "MORTAR");
    assert_eq!(classify_deployable_event_type("BP_Deployable_HMG_Tripod"), "EMPLACEMENT");
    assert_eq!(classify_deployable_event_type("BP_Logi_Ural375_RUS"), "DEPLOYABLE");
    assert_eq!(classify_deployable_event_type(""), "DEPLOYABLE");
}

#[test]
fn component_kinds() {
    assert_eq!(infer_component_type_name("/Script/Squad.SQRotorComponent", None), "rotor");
    assert_eq!(infer_component_type_name("/Script/Squad.SQVehicleComponent", Some("MainRotor")), "rotor");
    assert_eq!(infer_component_type_name("/Script/Squad.SQVehicleTrack", None), "track");
    assert_eq!(infer_component_type_name("x", Some("AmmoRack_Front")), "ammorack");
    assert_eq!(infer_component_type_name("/Script/Squad.SQVehicleWheel", None), "wheel");
    assert_eq!(infer_component_type_name("x", Some("Seat3")), "seat");
    assert_eq!(infer_component_type_name("/Script/Squad.SQVehicleComponent", None), "component");
    assert_eq!(infer_component_type("/Script/Squad.SQVehicleComponent", Some("wheel_fl")), "wheel");
}

#[test]
fn group_leaves() {
    assert_eq!(infer_group_leaf("/Script/Squad.SQVehicleComponent"), "SQVehicleComponent");
    assert_eq!(
        infer_group_leaf("/Game/Vehicles/BTR80/BP_BTR80_Turret.BP_BTR80_Turret_C"),
        "BP_BTR80_Turret_C"
    );
    assert_eq!(infer_group_leaf("SQGameState"), "SQGameState");
    assert_eq!(infer_group_leaf("/Game/Maps/Fallujah"), "Fallujah");
    assert_eq!(infer_group_leaf("trailing."), "");
    assert_eq!(infer_group_leaf("é/ü.ß"), "ß");
}

#[test]
fn normalized_type_names() {
    assert_eq!(normalize_type(""), None);
    assert_eq!(
        normalize_type("BP_Soldier_RUS.BP_Soldier_RUS_C"),
        Some("BP_Soldier_RUS_C".to_string())
    );
    assert_eq!(normalize_type("BP_BTR80_RUS"), Some("BP_BTR80_RUS".to_string()));
    assert_eq!(normalize_type("a.b.c"), Some("c".to_string()));
    assert_eq!(normalize_type("abc."), Some(String::new()));
    let once = normalize_type("X.Y.Z_C").unwrap();
    assert_eq!(normalize_type(&once), Some(once.clone()));
}

#[test]
fn flags_cache_the_predicates() {
    for name in [
        "BP_Soldier_RUS",
        "BP_BTR80_RUS",
        "BP_Heli_MI8_RUS",
        "BP_FOBRadio_RUS",
        "SQGameState",
        "BP_Heli_UH60_Seat",
    ] {
        let flags = ClassifyFlags::from_group_leaf(name);
        assert_eq!(flags.is_soldier(), is_soldier_type(name));
        assert_eq!(flags.is_vehicle(), is_vehicle_type(name));
        assert_eq!(flags.is_helicopter(), is_helicopter_type(name));
        assert_eq!(flags.is_deployable_primary(), is_deployable_primary_type(name));
    }
    assert_eq!(ClassifyFlags::from_group_leaf("BP_Heli_MI8_RUS").0, 2 | 4);
    assert_eq!(ClassifyFlags::from_group_leaf("BP_Soldier_RUS").0, 1);
    assert_eq!(ClassifyFlags::from_group_leaf("BP_FOBRadio_RUS").0, 8);
    assert_eq!(ClassifyFlags::from_group_leaf("SQGameState").0, 0);
    assert_eq!(ClassifyFlags::SOLDIER | ClassifyFlags::VEHICLE | ClassifyFlags::HELICOPTER
        | ClassifyFlags::DEPLOYABLE_PRIMARY, 15);
}

#[test]
fn classification_ignores_ascii_case() {
    for name in [
        "BP_BTR80_RUS",
        "BP_UH60M_C",
        "BP_Soldier_RUS",
        "BP_FOBRadio_Woodland",
        "BP_BTR80_Turret_C",
        "BP_Kord_Tripod",
        "SQPlayerState",
    ] {
        let upper = name.to_ascii_uppercase();
        let lower = name.to_ascii_lowercase();
        for other in [upper.as_str(), lower.as_str()] {
            assert_eq!(is_vehicle_type(name), is_vehicle_type(other), "{name}");
            assert_eq!(is_helicopter_type(name), is_helicopter_type(other), "{name}");
            assert_eq!(is_soldier_type(name), is_soldier_type(other), "{name}");
            assert_eq!(
                is_deployable_primary_type(name),
                is_deployable_primary_type(other),
                "{name}"
            );
            assert_eq!(
                classify_deployable_event_type(name),
                classify_deployable_event_type(other),
                "{name}"
            );
        }
    }
}

#[test]
fn keyword_match_survives_surrounding_text() {
    assert!(is_helicopter_type("loach"));
    assert!(is_helicopter_type("BP_LOACH_CAS_Small_C"));
    assert!(is_soldier_type("soldier"));
    assert!(is_soldier_type("BP_Soldier_USA_Rifleman"));
}
