use oxide_network::commands::Effect;
use oxide_network::conveyor::{load_buildings, overlay_buildings, DynamicTile, DynamicWorld};
use oxide_network::listener::accepted_connection;
use oxide_network::outbound::PendingConnection;
use oxide_network::registry::{NamedRegistry, Registry};
use oxide_network::runtime::{
    apply_mode_switch_world_state, assign_team, export_slot_path, find_session,
    hostile_unit_count, kick_effects, kick_targets, load_units, load_world, mode_enemy_spawns,
    mode_name, overlay_blocks, parse_mode, plan_command, plan_reassignments,
    reconcile_mode_transition_actions, report_spawn, resume_world, save_slot_path, session_teams,
    switch_mode, switch_teams, team_in_mode, AssignError, BuildingCommand,
    GameFlags, GameStats, InvalidSlot, LoadedWorld, MapBuilding, ModeActionReconciliation,
    ModeWorld, PendingActions, PlayerCombat, Reassignment, Records, RuntimeCommand, RuntimePlan,
    SavePath, SavedRecords, SpawnReport, Start, SwitchAbort, WaveRules,
};
use oxide_network::startup::{
    check_save_identity, hosted_map_name, next_enemy_id, promote_commanded, restored_health,
    resume_numbers, standing_buildings, BuildingTemplate, GameNumbers, SaveMismatch, SavedNumbers,
    UnitAuthority,
};
use oxide_network::wire::{encode_text_frame, GameMode, SessionPlayer};

fn survival_rules() -> WaveRules {
    WaveRules {
        wave_team: 2,
        waves_enabled: true,
        wave_timer: true,
        infinite_resources: false,
        initial_wave_spacing: 120.0f32.to_bits(),
    }
}

fn sandbox_rules() -> WaveRules {
    WaveRules {
        infinite_resources: true,
        wave_timer: false,
        ..survival_rules()
    }
}

fn test_world() -> ModeWorld {
    ModeWorld {
        mode: GameMode::Survival,
        rules: survival_rules(),
        infinite_resources: false,
        wave_time: 0,
        enemy_spawns: Vec::new(),
        enemies: Registry::new(),
        unit_group_order: Vec::new(),
        projectiles: Vec::new(),
        enemies_count: 0,
        ai_rebuild_sites: Vec::new(),
        navigation_revision: 0,
        game_over: false,
        stats: GameStats {
            waves_lasted: 0,
            enemy_units_destroyed: 0,
            buildings_built: 0,
            buildings_destroyed: 0,
            units_created: 0,
        },
        is_paused: false,
        pvp_auto_paused: false,
        persistence_dirty: false,
    }
}

fn enemy_core() -> Vec<MapBuilding> {
    vec![MapBuilding {
        position: (9 << 16) | 9,
        block: 344,
        team: 2,
    }]
}

#[test]
fn mode_switch_hop_sequence_keeps_world_invariants() {
    let mut world = test_world();
    for id in [10, 11, 12] {
        world.enemies.insert(id, 2);
        world.unit_group_order.push(id);
    }
    world.enemies.insert(20, 1);
    world.unit_group_order.push(20);
    world.projectiles.push(30);
    world.game_over = true;
    world.stats.waves_lasted = 7;
    world.enemy_spawns = vec![(5, 5), (6, 6)];
    world.ai_rebuild_sites.push(1);
    let base_spawns = vec![(5, 5)];

    // --- Hop 1: Survival -> Pvp ---
    let removed = apply_mode_switch_world_state(
        &mut world,
        GameMode::Pvp,
        survival_rules(),
        base_spawns.clone(),
    );
    assert_eq!(removed, 3, "all wave-team units leave with the old game");
    assert!(world.enemies.contains_key(20), "player-team units stay");
    assert_eq!(world.enemies_count, hostile_unit_count(&world));
    assert_eq!(hostile_unit_count(&world), 0);
    assert!(world.projectiles.is_empty(), "in-flight damage is dropped");
    assert!(!world.game_over);
    assert_eq!(world.stats.waves_lasted, 0);
    assert!(world.ai_rebuild_sites.is_empty());
    assert_eq!(world.enemy_spawns, base_spawns);
    assert!(matches!(world.mode, GameMode::Pvp));
    assert_eq!(world.unit_group_order, vec![20]);
    assert_eq!(world.navigation_revision, 1);
    assert_eq!(world.wave_time, 120.0f32.to_bits());

    // --- Hop 2: Pvp -> Sandbox ---
    let removed = apply_mode_switch_world_state(
        &mut world,
        GameMode::Sandbox,
        sandbox_rules(),
        base_spawns.clone(),
    );
    assert_eq!(removed, 0, "no wave-team units remain to remove");
    assert!(!world.game_over);
    assert!(
        world.rules.infinite_resources,
        "sandbox preset applies infinite resources"
    );
    assert!(world.infinite_resources);

    // --- Hop 3: Sandbox -> Attack ---
    let attack_spawns =
        mode_enemy_spawns(base_spawns.clone(), &enemy_core(), GameMode::Attack, 2);
    assert_eq!(
        attack_spawns,
        vec![(5, 5), (9, 9)],
        "entering Attack adds the wave team's core spawn"
    );
    apply_mode_switch_world_state(&mut world, GameMode::Attack, survival_rules(), attack_spawns);
    assert_eq!(world.enemy_spawns.len(), base_spawns.len() + 1);

    // --- Hop 4: Attack -> Survival ---
    apply_mode_switch_world_state(
        &mut world,
        GameMode::Survival,
        survival_rules(),
        base_spawns.clone(),
    );
    assert_eq!(
        world.enemy_spawns, base_spawns,
        "leaving Attack drops the wave-team-core spawn point"
    );
    assert!(!world.game_over);
    assert!(matches!(world.mode, GameMode::Survival));
}

#[test]
fn mode_enemy_spawns_match_fresh_host_behaviour() {
    let none: Vec<MapBuilding> = Vec::new();
    let base = vec![(1, 2)];
    assert_eq!(
        mode_enemy_spawns(base.clone(), &none, GameMode::Survival, 2),
        base
    );
    assert_eq!(mode_enemy_spawns(base.clone(), &none, GameMode::Pvp, 2), base);
    assert_eq!(
        mode_enemy_spawns(base.clone(), &none, GameMode::Sandbox, 2),
        base
    );
    assert_eq!(
        mode_enemy_spawns(base.clone(), &none, GameMode::Attack, 2),
        base
    );
    let cores = enemy_core();
    let spawns = mode_enemy_spawns(vec![], &cores, GameMode::Attack, 2);
    assert_eq!(spawns, vec![(9, 9)]);
    let spawns = mode_enemy_spawns(vec![], &cores, GameMode::Attack, 3);
    assert!(spawns.is_empty());
}

#[test]
fn attack_spawns_are_listed_once_and_come_from_cores() {
    let mut buildings = enemy_core();
    buildings.extend(enemy_core());
    buildings.push(MapBuilding { position: (3 << 16) | 4, block: 338, team: 2 });
    buildings.push(MapBuilding { position: (3 << 16) | 4, block: 339, team: 2 });
    assert_eq!(
        mode_enemy_spawns(vec![(9, 9)], &buildings, GameMode::Attack, 2),
        vec![(9, 9), (3, 4)]
    );
    assert_eq!(
        mode_enemy_spawns(vec![(9, 9)], &buildings, GameMode::Survival, 2),
        vec![(9, 9)]
    );
}

#[test]
fn survival_keeps_the_units_of_the_wave_team() {
    let mut world = test_world();
    world.enemies.insert(1, 2);
    world.projectiles.push(5);
    world.enemies_count = 9;
    world.navigation_revision = u64::MAX;
    assert_eq!(
        apply_mode_switch_world_state(&mut world, GameMode::Attack, survival_rules(), vec![]),
        0
    );
    assert!(world.enemies.contains_key(1));
    assert_eq!((world.projectiles.len(), world.enemies_count), (1, 9));
    assert_eq!(world.navigation_revision, 0);
}

#[test]
fn cancelled_work_is_counted() {
    let mut actions = PendingActions {
        builds: vec![1, 2],
        breaks: vec![3],
        team_plans: vec![vec![1, 2, 3], vec![], vec![4]],
        session_plans: vec![vec![7], vec![8, 9]],
    };
    assert_eq!(
        reconcile_mode_transition_actions(&mut actions),
        ModeActionReconciliation { builds: 2, breaks: 1, plans: 4, active_plans: 3 }
    );
    assert!(actions.builds.is_empty() && actions.breaks.is_empty());
    assert!(actions.team_plans.is_empty());
    assert_eq!(actions.session_plans, vec![Vec::<i32>::new(), Vec::new()]);
    assert_eq!(
        reconcile_mode_transition_actions(&mut actions),
        ModeActionReconciliation { builds: 0, breaks: 0, plans: 0, active_plans: 0 }
    );
    assert_eq!(actions.session_plans.len(), 2);
}

#[test]
fn switches_are_all_or_nothing() {
    let mut world = test_world();
    let mut players = Registry::new();
    players.insert(5, PlayerCombat { team: 1, x: 10, y: 20 });
    players.insert(6, PlayerCombat { team: 3, x: 10, y: 20 });
    world.game_over = true;
    world.is_paused = true;
    let moves = vec![
        Reassignment { unit_id: 5, team: 1, spawn_x: 70, spawn_y: 80 },
        Reassignment { unit_id: 6, team: 1, spawn_x: 70, spawn_y: 80 },
        Reassignment { unit_id: 7, team: 1, spawn_x: 70, spawn_y: 80 },
    ];
    let rules = Some(survival_rules());
    let spawns = || Some(vec![(1, 1)]);
    let mut attempt = |mode: &str, rules, spawns, ready| {
        let r = switch_mode(&mut world, &mut players, mode, rules, spawns, ready, &moves);
        (r.map(|report| (report.mode, report.moved_units)), world.game_over, world.is_paused)
    };
    assert_eq!(attempt("Pvp", rules, spawns(), true).0, Err(SwitchAbort::UnknownMode));
    assert_eq!(attempt("pvp", None, spawns(), true).0, Err(SwitchAbort::Rules));
    assert_eq!(attempt("pvp", rules, None, true).0, Err(SwitchAbort::Spawns));
    assert_eq!(
        attempt("pvp", rules, spawns(), false),
        (Err(SwitchAbort::RulesFrame), true, true)
    );
    assert_eq!(
        attempt("pvp", rules, spawns(), true),
        (Ok((GameMode::Pvp, vec![6])), false, false)
    );
    assert!(world.pvp_auto_paused && world.persistence_dirty);
    assert_eq!(players.get(5), Some(&PlayerCombat { team: 1, x: 10, y: 20 }));
    assert_eq!(players.get(6), Some(&PlayerCombat { team: 1, x: 70, y: 80 }));
    assert_eq!(team_in_mode(GameMode::Pvp, 4), 4);
    assert_eq!(team_in_mode(GameMode::Attack, 4), 1);
    for mode in [GameMode::Survival, GameMode::Sandbox, GameMode::Attack, GameMode::Pvp] {
        assert_eq!(parse_mode(&mode_name(mode)), Some(mode));
    }
}

fn base_path() -> SavePath {
    SavePath {
        stem: Some("world".to_string()),
        extension: Some("sav".to_string()),
    }
}

#[test]
fn save_slots_have_safe_names() {
    assert_eq!(save_slot_path(&base_path(), "Slot_1-a").unwrap(), "world-Slot_1-a.sav");
    let bare = SavePath { stem: None, extension: None };
    assert_eq!(save_slot_path(&bare, "x").unwrap(), "world-delta-x.json");
    assert_eq!(export_slot_path(&bare, "x").unwrap(), "world-delta-x.msav");
    assert!(save_slot_path(&bare, &"a".repeat(64)).is_ok());
    for bad in ["", "a/b", "..", "a b", "ä", "a.b", &"a".repeat(65)] {
        assert!(matches!(save_slot_path(&bare, bad), Err(InvalidSlot)), "{bad}");
        assert!(matches!(export_slot_path(&bare, bad), Err(InvalidSlot)), "{bad}");
    }
}

fn named(name: &str, uuid: &str, unit_id: i32) -> SessionPlayer {
    SessionPlayer {
        id: 1,
        unit_id,
        name: name.to_string(),
        uuid: uuid.to_string(),
        admin: false,
        boosting: false,
        color: 0,
        mouse_x: 0,
        mouse_y: 0,
        x: 0,
        y: 0,
        last_shot: 0,
    }
}

fn connected(ip: &str, name: Option<&str>) -> PendingConnection {
    let mut c = accepted_connection(ip.to_string(), false);
    c.player_name = name.map(|n| n.to_string());
    c
}

#[test]
fn kicks_and_teams_find_their_players() {
    let mut connections = Registry::new();
    connections.insert(1, connected("10.0.0.1", Some("ÄNN")));
    connections.insert(2, connected("10.0.0.2", None));
    connections.insert(3, connected("10.0.0.3", Some("bob")));
    assert_eq!(kick_targets(&connections, "änn"), vec![1]);
    assert_eq!(kick_targets(&connections, "10.0.0.2"), vec![2]);
    assert!(kick_targets(&connections, "BOB").is_empty());
    let mut sessions = Registry::new();
    sessions.insert(40, named("ÄNN", "AbC=", 40));
    sessions.insert(41, named("Bob", "xyz", 41));
    assert_eq!(find_session(&sessions, "änn"), Some(40));
    assert_eq!(find_session(&sessions, "abc="), Some(40));
    assert_eq!(find_session(&sessions, "nobody"), None);
    let mut players = Registry::new();
    players.insert(40, PlayerCombat { team: 1, x: 5, y: 6 });
    assert_eq!(assign_team(&sessions, &mut players, "änn", Some(4)), Ok(40));
    assert_eq!(players.get(40), Some(&PlayerCombat { team: 4, x: 5, y: 6 }));
    assert_eq!(assign_team(&sessions, &mut players, "bob", Some(4)), Err(AssignError::NoUnit));
    assert_eq!(assign_team(&sessions, &mut players, "x", Some(4)), Err(AssignError::NoPlayer));
    assert_eq!(assign_team(&sessions, &mut players, "x", None), Err(AssignError::UnknownTeam));
}

#[test]
fn kicks_reach_whom_they_mean() {
    let mut connections = Registry::new();
    let mut ann = accepted_connection("10.0.0.1".to_string(), true);
    ann.player_name = Some("ÄNN".to_string());
    connections.insert(4, ann);
    connections.insert(5, accepted_connection("10.0.0.2".to_string(), true));
    connections.insert(6, accepted_connection("10.0.0.2".to_string(), true));
    let mut sessions = Registry::new();
    sessions.insert(40, named("Änn", "AbC=", 40));
    let frame = vec![1, 2, 3];
    let told = |target: &str| -> Vec<String> {
        kick_effects(&connections, &sessions, target, &frame)
            .into_iter()
            .map(|effect| match effect {
                Effect::Send { connection, frame, critical } => {
                    assert_eq!((frame, critical), (vec![1, 2, 3], true));
                    format!("send {connection}")
                }
                Effect::Kicked { uuid, ip, seconds } => format!("{uuid} {ip} {seconds}"),
            })
            .collect()
    };
    assert_eq!(told("änn"), ["send 4", "AbC= 10.0.0.1 0"]);
    assert_eq!(told("10.0.0.2"), ["send 5", "send 6"]);
    assert!(told("nobody").is_empty());
    // An identity alone means no connection.
    assert!(told("abc=").is_empty());
}

#[test]
fn sessions_are_placed_by_mode() {
    let mut sessions = Registry::new();
    sessions.insert(40, named("Ann", "a", 40));
    sessions.insert(41, named("Bob", "b", 41));
    let mut players = Registry::new();
    players.insert(41, PlayerCombat { team: 6, x: 0, y: 0 });
    let list = session_teams(&sessions, &players);
    let seen: Vec<(i32, &str, u8)> =
        list.iter().map(|s| (s.unit_id, s.uuid.as_str(), s.team)).collect();
    assert_eq!(seen, [(40, "a", 1), (41, "b", 6)]);
    assert_eq!(switch_teams(GameMode::Pvp, &list, &vec![3, 4]), vec![3, 4]);
    assert_eq!(switch_teams(GameMode::Sandbox, &list, &vec![]), vec![1, 1]);
    assert_eq!(
        plan_reassignments(&list, &vec![3, 4], &vec![(7, 8), (9, 10)]),
        vec![
            Reassignment { unit_id: 40, team: 3, spawn_x: 7, spawn_y: 8 },
            Reassignment { unit_id: 41, team: 4, spawn_x: 9, spawn_y: 10 },
        ]
    );
}

#[test]
fn commands_have_plans() {
    let base = base_path();
    let mut flags = GameFlags { game_over: false, is_paused: false, pvp_auto_paused: true };
    let mut plan = |command| plan_command(command, &base, GameMode::Attack, &mut flags);
    assert!(matches!(
        plan(RuntimeCommand::Save("a".to_string())),
        RuntimePlan::SaveTo(name) if name == "world-a.sav"
    ));
    assert!(matches!(
        plan(RuntimeCommand::SaveMsav("a".to_string())),
        RuntimePlan::ExportTo(name) if name == "world-a.msav"
    ));
    assert!(matches!(
        plan(RuntimeCommand::Load("a".to_string())),
        RuntimePlan::LoadFrom(name) if name == "world-a.sav"
    ));
    assert!(matches!(plan(RuntimeCommand::Load("/".to_string())), RuntimePlan::InvalidSlot));
    let kick = encode_text_frame(65, "Kicked by server console").unwrap();
    assert!(matches!(
        plan(RuntimeCommand::Kick("ÄNN".to_string())),
        RuntimePlan::KickMatching { target, frame } if target == "änn" && frame == kick
    ));
    let say = encode_text_frame(106, "[accent][Server][] hi").unwrap();
    assert!(matches!(
        plan(RuntimeCommand::Say("hi".to_string())),
        RuntimePlan::Broadcast(frame) if frame == say
    ));
    assert!(matches!(
        plan(RuntimeCommand::Say("x".repeat(70_000))),
        RuntimePlan::Unsendable
    ));
    assert!(matches!(
        plan(RuntimeCommand::NextMap),
        RuntimePlan::HostNext { mode } if mode == "attack"
    ));
    assert!(matches!(
        plan(RuntimeCommand::SetTeam { player: "Bob".to_string(), team: "2".to_string() }),
        RuntimePlan::Assign { target, team } if target == "bob" && team == "2"
    ));
    assert!(matches!(plan(RuntimeCommand::GameOver), RuntimePlan::EmitGameOver));
    assert!(matches!(plan(RuntimeCommand::Pause(true)), RuntimePlan::Paused(true)));
    assert_eq!(
        flags,
        GameFlags { game_over: true, is_paused: true, pvp_auto_paused: false }
    );
    assert_eq!(report_spawn(3, true, false), SpawnReport::Spawned(3));
    assert_eq!(report_spawn(0, true, false), SpawnReport::StrictRejected);
    assert_eq!(report_spawn(0, true, true), SpawnReport::NotSpawned);
    assert_eq!(report_spawn(0, false, false), SpawnReport::NotSpawned);
}

#[test]
fn loaded_units_replace_the_old_ones() {
    let mut world = test_world();
    world.enemies.insert(1, 2);
    world.unit_group_order.push(1);
    world.game_over = true;
    assert_eq!(load_units(&mut world, &vec![(3_000_007, 2), (5, 1), (3_000_007, 1)]), 3_000_008);
    assert!(!world.enemies.contains_key(1));
    assert_eq!(world.enemies.get(3_000_007), Some(&1));
    assert_eq!(world.unit_group_order, vec![3_000_007, 5]);
    assert_eq!(world.enemies_count, 0);
    assert!(world.game_over, "a load does not touch the flag");
    assert_eq!(load_units(&mut world, &vec![]), 3_000_000);
    assert_eq!(next_enemy_id(3, &vec![i32::MAX, 7]), i32::MAX);
}

fn building(position: i32, block: i16) -> DynamicTile {
    DynamicTile {
        position,
        block,
        rotation: 0,
        team: 1,
        occupied: vec![position],
        stored_item: -1,
        stored_amount: 0,
        transport_progress: 0,
        conveyor_items: Vec::new(),
        inventory: Vec::new(),
        production_progress: 0,
        stored_liquid: -1,
        liquid_amount: 0,
    }
}

fn block_at(map: &DynamicWorld, key: i32) -> Option<i16> {
    map.tile(key).map(|tile| tile.block)
}

fn slot(map_name: Option<&str>) -> LoadedWorld<&'static str, bool> {
    LoadedWorld {
        map_name: map_name.map(str::to_owned),
        rules: Some(WaveRules { wave_team: 1, ..survival_rules() }),
        tiles: vec![(40, building(40, 257)), (41, building(41, 9)), (40, building(40, 258))],
        units: vec![(3_000_004, 2), (9, 1), (10, 1)],
        records: SavedRecords {
            building_commands: vec![
                BuildingCommand { position: 41, target_x: 1, target_y: 2 },
                BuildingCommand { position: 41, target_x: 3, target_y: 4 },
            ],
            unit_orders: vec![(9, "mine"), (10, "move")],
            authorities: vec![(9, UnitAuthority::DefaultAi), (10, UnitAuthority::Player)],
            logic_flags: vec![("gate".to_owned(), true), ("seen".to_owned(), false)],
        },
        numbers: SavedNumbers {
            simulation_time: Some(77),
            wave: Some(12),
            wave_time: None,
            core_health: None,
            core_items: Some(vec![1, 2]),
        },
        stats: GameStats {
            waves_lasted: 11,
            enemy_units_destroyed: 1,
            buildings_built: 2,
            buildings_destroyed: 3,
            units_created: 4,
        },
    }
}

fn busy_records() -> Records<&'static str, bool> {
    let mut records = Records::new();
    records.actions.builds = vec![1];
    records.actions.team_plans = vec![vec![2, 3]];
    records.building_commands.insert(5, BuildingCommand { position: 5, target_x: 0, target_y: 0 });
    records.unit_orders.insert(1, "guard");
    records.authorities.insert(1, UnitAuthority::Logic);
    records.logic_flags.insert("gate".to_owned(), false);
    records.logic_flags.insert("kept".to_owned(), true);
    records
}

fn some_numbers() -> GameNumbers {
    GameNumbers {
        simulation_time: 1,
        wave: 2,
        wave_time: 3,
        core_health: 4,
        core_items: vec![5],
    }
}

#[test]
fn a_slot_is_loaded_whole_or_not_at_all() {
    let mut world = test_world();
    world.enemies.insert(1, 2);
    world.navigation_revision = 5;
    let mut map = DynamicWorld::new();
    map.put(39, building(39, 7));
    let mut records = busy_records();
    let mut numbers = some_numbers();
    let mut players: Registry<PlayerCombat> = Registry::new();
    players.insert(20, PlayerCombat { team: 1, x: 0, y: 0 });
    let mut sessions: Registry<SessionPlayer> = Registry::new();
    let refused = load_world(
        &mut world,
        &mut map,
        &mut records,
        &mut numbers,
        &mut players,
        &mut sessions,
        "maze",
        slot(Some("fork")),
    );
    assert_eq!(refused, Err(SaveMismatch::OtherMap));
    assert_eq!(world.enemies.get(1), Some(&2));
    assert_eq!(world.navigation_revision, 5);
    assert_eq!(world.rules, survival_rules());
    assert_eq!(map.tiles.keys(), vec![39]);
    assert_eq!(records.actions.builds, vec![1]);
    assert_eq!(records.logic_flags.get("gate"), Some(&false));
    assert_eq!(numbers.wave, 2);
    assert!(players.contains_key(20));

    for map_name in [Some("maze"), None] {
        let next = load_world(
            &mut world,
            &mut map,
            &mut records,
            &mut numbers,
            &mut players,
            &mut sessions,
            "maze",
            slot(map_name),
        );
        assert_eq!(next, Ok(3_000_005));
        assert_eq!(world.enemies.keys(), vec![3_000_004, 9, 10]);
        assert_eq!(world.rules.wave_team, 1);
        assert_eq!(world.enemies_count, 2, "counted by the rules of the slot");
        assert_eq!(world.stats.waves_lasted, 11);
        assert_eq!(map.tiles.keys(), vec![40, 41]);
        assert_eq!(block_at(&map, 40), Some(258), "the last entry stands");
        assert!(records.actions.builds.is_empty() && records.actions.team_plans.is_empty());
        assert_eq!(records.building_commands.keys(), vec![41]);
        assert_eq!(records.building_commands.get(41).map(|c| c.target_x), Some(3));
        assert_eq!(records.unit_orders.keys(), vec![9, 10]);
        assert_eq!(records.authorities.get(10), Some(&UnitAuthority::Player));
        assert!(!records.authorities.contains_key(1));
        assert_eq!(records.logic_flags.get("gate"), Some(&true));
        assert_eq!(records.logic_flags.get("seen"), Some(&false));
        assert_eq!(records.logic_flags.get("kept"), Some(&true), "flags are put over others");
        assert_eq!((numbers.simulation_time, numbers.wave), (77, 12));
        assert_eq!((numbers.wave_time, numbers.core_health), (3, 4));
        assert_eq!(numbers.core_items, vec![1, 2]);
        assert_eq!(players.len() + sessions.len(), 0);
    }
    assert_eq!(world.navigation_revision, 7);
    // A slot without rules leaves them as they are.
    let mut plain = slot(None);
    plain.rules = None;
    world.rules = survival_rules();
    let next = load_world(
        &mut world,
        &mut map,
        &mut records,
        &mut numbers,
        &mut players,
        &mut sessions,
        "maze",
        plain,
    );
    assert_eq!(next, Ok(3_000_005));
    assert_eq!((world.rules.wave_team, world.enemies_count), (2, 1));
}

#[test]
fn a_start_takes_its_save_or_changes_nothing() {
    let mut world = test_world();
    let mut map = DynamicWorld::new();
    map.put(39, building(39, 7));
    map.put(40, building(40, 8));
    let mut records: Records<&'static str, bool> = Records::new();
    let mut numbers = some_numbers();
    let start = |map_file: bool, save_exists: bool| Start {
        active: "maze",
        map_file,
        save_exists,
        next_unit: 3_000_100,
        full_health: 6_000,
    };
    let commanded = vec![9, 10, 11];
    let refused = [
        (Some("fork"), false, SaveMismatch::OtherMap),
        (None, true, SaveMismatch::NoIdentity),
    ];
    for (name, map_file, reason) in refused {
        let r = resume_world(
            &mut world,
            &mut map,
            &mut records,
            &mut numbers,
            &start(map_file, true),
            slot(name),
            &commanded,
        );
        assert_eq!(r, Err(reason));
        assert_eq!(world.enemies.len(), 0);
        assert_eq!(world.stats.waves_lasted, 0);
        assert_eq!(block_at(&map, 40), Some(8));
        assert_eq!(records.unit_orders.len(), 0);
        assert_eq!((numbers.wave, numbers.core_health), (2, 4));
    }
    let r = resume_world(
        &mut world,
        &mut map,
        &mut records,
        &mut numbers,
        &start(true, true),
        slot(Some("maze")),
        &commanded,
    );
    assert_eq!(r, Ok(3_000_100));
    assert_eq!(world.enemies.keys(), vec![3_000_004, 9, 10]);
    assert_eq!(world.rules, survival_rules(), "a start keeps the rules of the map");
    assert_eq!(world.enemies_count, 1);
    assert_eq!(world.navigation_revision, 0);
    assert_eq!(world.stats.waves_lasted, 11);
    assert_eq!(block_at(&map, 39), Some(7), "an untouched building stays");
    assert_eq!(block_at(&map, 40), Some(258), "a saved one overrides that of the map");
    assert_eq!(block_at(&map, 41), Some(9));
    assert_eq!(records.authorities.get(9), Some(&UnitAuthority::Command));
    assert_eq!(records.authorities.get(10), Some(&UnitAuthority::Player));
    assert_eq!(records.authorities.get(11), None);
    assert_eq!((numbers.wave, numbers.core_health), (12, 6_000));
}

#[test]
fn buildings_are_replaced_or_overlaid() {
    let mut map = DynamicWorld::new();
    map.put(1, building(1, 10));
    map.footprint.insert(2, 1);
    overlay_buildings(&mut map, vec![(3, building(3, 11)), (1, building(1, 12))]);
    assert_eq!((block_at(&map, 1), block_at(&map, 3)), (Some(12), Some(11)));
    load_buildings(&mut map, vec![(3, building(3, 13)), (3, building(3, 14))]);
    assert_eq!((block_at(&map, 1), block_at(&map, 3)), (None, Some(14)));
    assert_eq!(map.footprint.get(2), Some(&1));
    load_buildings(&mut map, Vec::new());
    assert_eq!(map.tiles.len(), 0);
}

#[test]
fn names_lead_to_their_last_value() {
    let mut names: NamedRegistry<i32> = NamedRegistry::new();
    assert_eq!(names.get("a"), None);
    names.insert("a".to_owned(), 1);
    names.stock(vec![("b".to_owned(), 2), ("a".to_owned(), 3), ("b".to_owned(), 4)]);
    assert_eq!((names.get("a"), names.get("b"), names.get("c")), (Some(&3), Some(&4), None));
}

#[test]
fn buildings_are_put_onto_the_block_map() {
    let mut blocks = vec![0; 6];
    let at = |x: i32, y: i32| (x << 16) | (y & 0xFFFF);
    let tiles = vec![(at(2, 1), 7), (at(0, 0), 8), (at(3, 0), 9), (at(-1, 1), 9), (at(0, 2), 9)];
    overlay_blocks(&mut blocks, 3, 2, &tiles);
    assert_eq!(blocks, vec![8, 0, 0, 0, 0, 7]);
}

#[test]
fn saves_belong_to_their_map() {
    assert_eq!(hosted_map_name("maze", true, Some("fork")), "fork");
    assert_eq!(hosted_map_name("maze", true, None), "custom");
    assert_eq!(hosted_map_name("glacier", true, Some("fork")), "glacier");
    assert_eq!(hosted_map_name("maze", false, Some("fork")), "maze");
    assert_eq!(check_save_identity(Some("a"), "a", true, true), Ok(()));
    assert_eq!(
        check_save_identity(Some("a"), "b", false, false),
        Err(SaveMismatch::OtherMap)
    );
    assert_eq!(check_save_identity(None, "b", true, true), Err(SaveMismatch::NoIdentity));
    assert_eq!(check_save_identity(None, "b", true, false), Ok(()));
    assert_eq!(check_save_identity(None, "b", false, true), Ok(()));
}

#[test]
fn saves_restore_what_they_hold() {
    let f = |x: f32| x.to_bits();
    assert_eq!(restored_health(Some(f(40.0)), f(80.0), f(100.0)), f(40.0));
    assert_eq!(restored_health(Some(f(140.0)), f(80.0), f(100.0)), f(80.0));
    assert_eq!(restored_health(Some(f(-1.0)), f(80.0), f(100.0)), f(80.0));
    assert_eq!(restored_health(Some(f(f32::NAN)), f(180.0), f(100.0)), f(100.0));
    assert_eq!(restored_health(Some(0), f(80.0), f(100.0)), f(f32::MIN_POSITIVE));
    let templates = vec![
        BuildingTemplate { position: 1, health: f(10.0), maximum: f(20.0) },
        BuildingTemplate { position: 2, health: f(10.0), maximum: f(20.0) },
        BuildingTemplate { position: 3, health: f(10.0), maximum: f(20.0) },
    ];
    let mut blocks: Registry<i16> = Registry::new();
    blocks.insert(1, 0);
    blocks.insert(2, 9);
    let saved = vec![(2, f(5.0)), (2, f(6.0))];
    assert_eq!(
        standing_buildings(&templates, &blocks, &saved),
        vec![(2, f(6.0)), (3, f(10.0))]
    );
    let mut units = Registry::new();
    units.insert(1, UnitAuthority::DefaultAi);
    units.insert(2, UnitAuthority::Player);
    units.insert(3, UnitAuthority::DefaultAi);
    promote_commanded(&mut units, &vec![1, 2, 9]);
    assert_eq!(units.get(1), Some(&UnitAuthority::Command));
    assert_eq!(units.get(2), Some(&UnitAuthority::Player));
    assert_eq!(units.get(3), Some(&UnitAuthority::DefaultAi));
    let mut now = GameNumbers {
        simulation_time: 1,
        wave: 2,
        wave_time: 3,
        core_health: 4,
        core_items: vec![5],
    };
    resume_numbers(
        &mut now,
        SavedNumbers {
            simulation_time: Some(11),
            wave: None,
            wave_time: Some(13),
            core_health: None,
            core_items: Some(vec![15]),
        },
        Some(14),
    );
    assert_eq!(
        (now.simulation_time, now.wave, now.wave_time, now.core_health),
        (11, 2, 13, 14)
    );
    assert_eq!(now.core_items, vec![15]);
}

#[test]
fn attack_adds_each_core_once() {
    let core = |position, team| MapBuilding { position, block: 339, team };
    let at = |x: i32, y: i32| (x << 16) | y;
    let buildings = vec![
        core(at(3, 4), 2),
        core(at(3, 4), 2),
        core(at(1, 1), 2),
        core(at(8, 8), 1),
        MapBuilding { position: at(7, 7), block: 257, team: 2 },
    ];
    // The map lists a place twice; attack mode leaves that alone.
    assert_eq!(
        mode_enemy_spawns(vec![(1, 1), (1, 1)], &buildings, GameMode::Attack, 2),
        vec![(1, 1), (1, 1), (3, 4)]
    );
}
