use squadreplay::compat::{
    deployable_events, fill_forward_track, from_bundle, kill_feed, kills_by_second, latest_writes, player_stats, CompatSource,
    DeployableActorRecord, DeploymentRecord, KillRecord,
};

fn kill(second: u32, victim: Option<&str>, killer: Option<&str>) -> KillRecord {
    KillRecord {
        second,
        victim_name: victim.map(|s| s.to_string()),
        killer_name: killer.map(|s| s.to_string()),
        victim_guid: None,
        killer_guid: None,
        was_incap: None,
    }
}

#[test]
fn kill_feed_fills_in_unknowns() {
    let mut k = kill(12, Some("Alice"), None);
    k.victim_guid = Some(754);
    k.was_incap = Some(true);
    let feed = kill_feed(&vec![k, kill(13, None, Some("Bob"))]);
    assert_eq!(feed.len(), 2);
    assert_eq!(feed[0].timestamp, 12);
    assert_eq!(feed[0].victim_name, "Alice");
    assert_eq!(feed[0].killer_name, "Unknown");
    assert_eq!(feed[0].victim_guid_str, "754");
    assert_eq!(feed[0].killer_guid_str, "null");
    assert!(feed[0].was_incap);
    assert_eq!(feed[1].victim_name, "Unknown");
    assert_eq!(feed[1].killer_name, "Bob");
    assert!(!feed[1].was_incap);
}

#[test]
fn player_stats_count_kills_and_deaths() {
    let kills = vec![
        kill(1, Some("Alice"), Some("Bob")),
        kill(2, Some("Carol"), Some("Bob")),
        kill(3, Some("Bob"), Some("Alice")),
        kill(4, Some("Unknown"), Some("")),
        kill(5, None, None),
    ];
    let players = vec![Some("Dave".to_string()), None, Some("Alice".to_string())];
    let stats = player_stats(&kills, &players);
    let find = |name: &str| stats.iter().find(|s| s.name == name).map(|s| (s.kills, s.deaths));
    assert_eq!(stats.len(), 4);
    assert_eq!(find("Bob"), Some((2, 1)));
    assert_eq!(find("Alice"), Some((1, 1)));
    assert_eq!(find("Carol"), Some((0, 1)));
    assert_eq!(find("Dave"), Some((0, 0)));
    assert_eq!(find("Unknown"), None);
    assert_eq!(find(""), None);
}

#[test]
fn positions_fill_forward_to_the_end_of_the_match() {
    // samples out of order: 2.5 s, 0.5 s, 2.9 s (same second as 2.5 s)
    let writes = fill_forward_track(&vec![2500, 500, 2900], 4);
    assert_eq!(
        writes,
        vec![(0, 1), (1, 1), (2, 1), (2, 0), (2, 2), (3, 2), (4, 2)]
    );
    assert_eq!(fill_forward_track(&vec![], 10), vec![]);
    // a sample after the match end still covers its own second
    assert_eq!(fill_forward_track(&vec![9000], 4), vec![(9, 0)]);
}

#[test]
fn the_last_write_to_a_second_stands() {
    let writes = fill_forward_track(&vec![2500, 500, 2900], 4);
    assert_eq!(
        latest_writes(&writes),
        vec![(0, 1), (1, 1), (2, 2), (3, 2), (4, 2)]
    );
    assert_eq!(latest_writes(&vec![(1, 0), (1, 1)]), vec![(1, 1)]);
    assert_eq!(latest_writes(&vec![]), vec![]);
}

#[test]
fn equal_times_keep_their_order() {
    let writes = fill_forward_track(&vec![1000, 1000], 1);
    assert_eq!(writes, vec![(1, 0), (1, 1)]);
}

#[test]
fn deployable_events_fall_back_to_actors() {
    let actors = vec![
        DeployableActorRecord {
            class_name: Some("BP_FOBRadio_RUS".to_string()),
            archetype_path: None,
            open_time_ms: 61_500,
        },
        DeployableActorRecord {
            class_name: None,
            archetype_path: Some("/Game/HAB".to_string()),
            open_time_ms: 0,
        },
    ];
    let (events, from_actors) = deployable_events(&vec![], &actors);
    assert!(from_actors);
    assert_eq!(events.len(), 2);
    assert_eq!(events[0].kind, "RADIO");
    assert_eq!(events[0].class_path, "BP_FOBRadio_RUS");
    assert_eq!(events[0].second, 61);
    assert_eq!(events[1].kind, "DEPLOYABLE");
    assert_eq!(events[1].class_path, "/Game/HAB");
    assert_eq!(events[1].source, 1);

    let deployments = vec![DeploymentRecord {
        deployment_type: "HAB".to_string(),
        class_name: None,
        second: 7,
    }];
    let (events, from_actors) = deployable_events(&deployments, &actors);
    assert!(!from_actors);
    assert_eq!(events.len(), 1);
    assert_eq!(events[0].kind, "HAB");
    assert_eq!(events[0].class_path, "Unknown");
    assert_eq!(events[0].second, 7);
}

#[test]
fn projection_of_a_small_bundle() {
    let source = CompatSource {
        duration_ms: 10_000,
        map_name: Some("Jensens_Range".to_string()),
        squad_version: None,
        kills: vec![kill(3, Some("Alice"), Some("Bob"))],
        player_names: vec![Some("Alice".to_string())],
        player_tracks: vec![vec![16]],
        helicopter_tracks: vec![vec![16, 4000]],
        vehicle_tracks: vec![],
        deployments: vec![],
        deployable_actors: vec![],
    };
    let projection = from_bundle(&source);
    assert_eq!(projection.map_name, "Jensens_Range");
    assert_eq!(projection.squad_version, "");
    assert_eq!(projection.match_duration_seconds, 10);
    assert_eq!(projection.kills.len(), 1);
    assert_eq!(projection.player_stats.len(), 2);
    assert_eq!(projection.player_positions.len(), 1);
    assert_eq!(projection.player_positions[0].len(), 11);
    assert_eq!(projection.helicopter_positions[0][4], (4, 0));
    assert_eq!(projection.helicopter_positions[0][5], (4, 1));
    assert_eq!(projection.helicopter_positions[0].len(), 5 + 7);
    assert!(projection.vehicle_positions.is_empty());
    assert!(projection.deployable_events.is_empty());
    assert!(projection.deployables_from_actors);
}

#[test]
fn kills_are_grouped_by_second_in_feed_order() {
    let feed = kill_feed(&vec![
        kill(5, Some("a"), None),
        kill(3, Some("b"), None),
        kill(5, Some("c"), None),
        kill(5, Some("d"), None),
    ]);
    let mut groups = kills_by_second(&feed);
    groups.sort_by_key(|g| g.0);
    assert_eq!(groups, vec![(3, vec![1]), (5, vec![0, 2, 3])]);
    assert!(kills_by_second(&vec![]).is_empty());
}
