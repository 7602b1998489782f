use oxide_network::content::{
    duct_speed, enemy_spec, enemy_weapon_mount_count, erekir_drill_spec, heat_block_spec,
    is_batch_snapshot_supported, is_block_snapshot_supported, is_core_block,
    is_erekir_conveyor_block, is_erekir_duct_block, item_transport_speed, liquid_factory_recipe,
    separator_spec, unit_factory_item_capacity, unit_factory_recipe, unit_missile_lifetime,
    HeatKind,
};
use oxide_network::protocol::{
    core_unit_sync_ids, packet_unreliable, ALPHA_CLASS_ID, ALPHA_CONTENT_ID, BETA_CLASS_ID,
    BETA_CONTENT_ID, EMANATE_CONTENT_ID, EVOKE_CONTENT_ID, GAMMA_CLASS_ID, GAMMA_CONTENT_ID,
    INCITE_CONTENT_ID, PAYLOAD_UNIT_CLASS_ID,
};

fn float(bits: u32) -> f32 {
    f32::from_bits(bits)
}

#[test]
fn core_unit_sync_ids_match_legacy_classes() {
    assert_eq!(core_unit_sync_ids(35), (ALPHA_CLASS_ID, ALPHA_CONTENT_ID));
    assert_eq!(core_unit_sync_ids(36), (BETA_CLASS_ID, BETA_CONTENT_ID));
    assert_eq!(core_unit_sync_ids(37), (GAMMA_CLASS_ID, GAMMA_CONTENT_ID));
    assert_eq!(
        core_unit_sync_ids(58),
        (PAYLOAD_UNIT_CLASS_ID, EVOKE_CONTENT_ID)
    );
    assert_eq!(
        core_unit_sync_ids(59),
        (PAYLOAD_UNIT_CLASS_ID, INCITE_CONTENT_ID)
    );
    assert_eq!(
        core_unit_sync_ids(60),
        (PAYLOAD_UNIT_CLASS_ID, EMANATE_CONTENT_ID)
    );
}

#[test]
fn unknown_core_units_are_sent_as_the_first_one() {
    assert_eq!(core_unit_sync_ids(0), (ALPHA_CLASS_ID, ALPHA_CONTENT_ID));
    assert_eq!(core_unit_sync_ids(-1), (0, 35));
    assert_eq!(core_unit_sync_ids(61), (0, 35));
}

#[test]
fn unreliable_packets_are_the_listed_ones() {
    let listed = [49u8, 141, 14, 37, 165, 143, 152, 29, 27, 95, 148, 41];
    for id in 0..=255u8 {
        assert_eq!(packet_unreliable(id), listed.contains(&id), "packet {id}");
    }
}

#[test]
fn conveyor_257_speed_matches_blocks_java_158_1() {
    assert_eq!(item_transport_speed(257).map(float), Some(0.046));
    assert_eq!(item_transport_speed(258).map(float), Some(0.0801));
    assert_eq!(item_transport_speed(260).map(float), Some(0.08));
}

#[test]
fn liquid_factory_rates_match_official_per_tick_semantics() {
    fn check(
        block: i16,
        craft_time: f32,
        item_output: Option<i16>,
        liquid_input: Option<(i16, f32)>,
        liquid_output: Option<(i16, f32)>,
    ) {
        let recipe = liquid_factory_recipe(block).unwrap_or_else(|| panic!("recipe for {block}"));
        assert!(
            (float(recipe.craft_time) - craft_time).abs() < 0.001,
            "craftTime {block}"
        );
        assert_eq!(recipe.item_output, item_output, "item out {block}");
        if let Some((lid, lamount)) = liquid_input {
            assert_eq!(recipe.liquid_input.0, lid, "liquid input id {block}");
            assert!(
                (float(recipe.liquid_input.1) - lamount).abs() < 0.001,
                "liquid input rate {block}"
            );
        } else {
            assert_eq!(float(recipe.liquid_input.1), 0.0, "no liquid input {block}");
        }
        if let Some((lid, lamount)) = liquid_output {
            let out = recipe.liquid_output.expect("liquid output");
            assert_eq!(out.0, lid, "liquid output id {block}");
            assert!(
                (float(out.1) - lamount).abs() < 0.001,
                "liquid output rate {block}"
            );
        } else {
            assert!(recipe.liquid_output.is_none(), "no liquid output {block}");
        }
    }
    check(182, 30.0, Some(3), Some((0, 0.1 * 30.0)), None);
    check(186, 60.0, Some(10), Some((2, 0.25 * 60.0)), None);
    check(
        189,
        120.0,
        None,
        Some((0, (12.0 / 60.0) * 120.0)),
        Some((3, (12.0 / 60.0) * 120.0)),
    );
    check(192, 10.0, None, None, Some((1, (12.0 / 60.0) * 10.0)));
    check(195, 20.0, None, None, Some((2, (18.0 / 60.0) * 20.0)));
    check(197, 30.0, Some(5), Some((2, 0.1 * 30.0)), None);
    check(
        211,
        120.0,
        None,
        Some((1, (40.0 / 60.0) * 120.0)),
        Some((5, (1.0 / 60.0) * 120.0)),
    );
    check(330, 100.0, Some(13), Some((0, (18.0 / 60.0) * 100.0)), None);
    check(
        331,
        60.0,
        None,
        Some((0, 0.15 * 60.0)),
        Some((2, 0.25 * 60.0)),
    );
}

#[test]
fn separator_specs_match_official_blocks() {
    let spec = separator_spec(193).unwrap();
    assert!((float(spec.craft_time) - 35.0).abs() < 0.001);
    assert_eq!(spec.results, &[(0, 5), (1, 3), (3, 2), (6, 2)]);
    assert_eq!(
        (spec.liquid_input.0, float(spec.liquid_input.1)),
        (1, (4.0 / 60.0) * 35.0)
    );
    assert_eq!(spec.item_input, None);
    let spec = separator_spec(194).unwrap();
    assert!((float(spec.craft_time) - 15.0).abs() < 0.001);
    assert_eq!(spec.results, &[(4, 2), (3, 1), (6, 1), (7, 1)]);
    assert_eq!(
        (spec.liquid_input.0, float(spec.liquid_input.1)),
        (1, 0.12 * 15.0)
    );
    assert_eq!(spec.item_input, Some(8));
}

#[test]
fn erekir_duct_specs_match_official_blocks() {
    for block in 272..=278 {
        assert!(
            (float(duct_speed(block)) - 4.0).abs() < 0.001,
            "speed {block}"
        );
    }
    assert!((float(duct_speed(280)) - 6.0).abs() < 0.001);
    assert!(is_erekir_duct_block(272));
    assert!(is_erekir_duct_block(277));
    assert!(is_erekir_duct_block(280));
    assert!(!is_erekir_duct_block(257));
    assert!(is_erekir_conveyor_block(279));
}

#[test]
fn heat_specs_match_official_blocks() {
    #[allow(clippy::too_many_arguments)]
    fn check(
        block: i16,
        kind: HeatKind,
        size: u8,
        split: bool,
        heat_output: f32,
        heat_requirement: f32,
        craft_time: f32,
        item_inputs: &[(i16, i32)],
        liquid_input: Option<(i16, f32)>,
        item_output: Option<(i16, i32)>,
        liquid_output: Option<(i16, f32)>,
        power_demand: f32,
    ) {
        let spec = heat_block_spec(block).unwrap_or_else(|| panic!("heat {block}"));
        assert_eq!(spec.kind, kind, "kind {block}");
        assert_eq!(spec.size, size, "size {block}");
        assert_eq!(spec.split, split, "split {block}");
        assert!(
            (float(spec.heat_output) - heat_output).abs() < 0.001,
            "heatOutput {block}"
        );
        assert!(
            (float(spec.heat_requirement) - heat_requirement).abs() < 0.001,
            "heatRequirement {block}"
        );
        assert!(
            (float(spec.craft_time) - craft_time).abs() < 0.001,
            "craftTime {block}"
        );
        assert_eq!(spec.item_inputs, item_inputs, "item inputs {block}");
        if let Some((lid, amount)) = liquid_input {
            let (slid, samount) = spec.liquid_input.expect("liquid input");
            assert_eq!(slid, lid, "liquid input id {block}");
            assert!((float(samount) - amount).abs() < 0.001, "liquid input {block}");
        } else {
            assert!(spec.liquid_input.is_none(), "no liquid input {block}");
        }
        if let Some((item, amount)) = item_output {
            let (sitem, samount) = spec.item_output.expect("item output");
            assert_eq!(sitem, item, "item output id {block}");
            assert_eq!(samount, amount, "item output {block}");
        } else {
            assert!(spec.item_output.is_none(), "no item output {block}");
        }
        if let Some((lid, amount)) = liquid_output {
            let (slid, samount) = spec.liquid_output.expect("liquid output");
            assert_eq!(slid, lid, "liquid output id {block}");
            assert!((float(samount) - amount).abs() < 0.001, "liquid output {block}");
        } else {
            assert!(spec.liquid_output.is_none(), "no liquid output {block}");
        }
        assert!(
            (float(spec.power_demand) - power_demand).abs() < 0.001,
            "power {block}"
        );
    }
    let none: &[(i16, i32)] = &[];
    check(
        201,
        HeatKind::Consumer,
        3,
        false,
        0.0,
        24.0,
        80.0,
        none,
        None,
        None,
        Some((9, 16.0 / 60.0 * 80.0)),
        2.0,
    );
    check(
        202,
        HeatKind::Producer,
        3,
        false,
        5.0,
        0.0,
        120.0,
        &[(16, 1)],
        Some((7, 2.0 / 60.0 * 120.0)),
        Some((18, 1)),
        None,
        0.5,
    );
    check(
        203,
        HeatKind::Producer,
        2,
        false,
        3.0,
        0.0,
        0.0,
        none,
        None,
        None,
        None,
        100.0 / 60.0,
    );
    check(
        204,
        HeatKind::Producer,
        3,
        false,
        8.0,
        0.0,
        80.0,
        none,
        Some((1, 40.0 / 60.0 * 80.0)),
        None,
        None,
        0.0,
    );
    check(
        205,
        HeatKind::Producer,
        2,
        false,
        15.0,
        0.0,
        480.0,
        &[(11, 1)],
        None,
        None,
        None,
        0.0,
    );
    check(206, HeatKind::Conductor, 3, false, 0.0, 0.0, 0.0, none, None, None, None, 0.0);
    check(207, HeatKind::Conductor, 2, false, 0.0, 0.0, 0.0, none, None, None, None, 0.0);
    check(208, HeatKind::Conductor, 3, true, 0.0, 0.0, 0.0, none, None, None, None, 0.0);
    check(
        210,
        HeatKind::Consumer,
        3,
        false,
        0.0,
        40.0,
        33.75,
        &[(17, 2), (3, 3)],
        None,
        Some((19, 1)),
        None,
        2.0,
    );
    check(
        212,
        HeatKind::Consumer,
        3,
        false,
        0.0,
        40.0,
        45.0,
        &[(9, 3)],
        Some((1, 160.0 / 60.0 * 45.0)),
        Some((12, 1)),
        None,
        1.5,
    );
    check(
        213,
        HeatKind::Consumer,
        3,
        false,
        0.0,
        20.0,
        80.0,
        &[(3, 1)],
        Some((5, 160.0 / 60.0 * 80.0)),
        None,
        Some((10, 12.0 / 60.0 * 80.0)),
        2.0,
    );
    check(
        214,
        HeatKind::Consumer,
        3,
        false,
        0.0,
        32.0,
        30.0,
        &[(7, 2), (4, 6)],
        Some((7, 8.0 / 60.0 * 30.0)),
        Some((11, 1)),
        None,
        8.0,
    );
    check(
        215,
        HeatKind::Producer,
        3,
        false,
        10.0,
        0.0,
        600.0,
        &[(7, 3)],
        Some((9, 1.0 / 60.0 * 600.0)),
        Some((20, 1)),
        None,
        0.0,
    );
}

#[test]
fn erekir_drill_specs_match_official_blocks() {
    let plasma = erekir_drill_spec(335).unwrap();
    assert_eq!(plasma.tier, 3);
    assert!((float(plasma.drill_time) - 160.0).abs() < 0.001);
    assert_eq!(plasma.size, 2);
    assert_eq!(plasma.range, 5);
    assert_eq!(plasma.booster_liquid, 8); // hydrogen
    assert_eq!(plasma.item_capacity, 10);
    let large = erekir_drill_spec(336).unwrap();
    assert_eq!(large.tier, 5);
    assert!((float(large.drill_time) - 100.0).abs() < 0.001);
    assert_eq!(large.size, 3);
    assert_eq!(large.range, 6);
    assert_eq!(large.booster_liquid, 9); // nitrogen
    assert_eq!(large.item_capacity, 20);
    assert!(erekir_drill_spec(337).is_none());
}

#[test]
fn erekir_factory_plans_match_official_blocks() {
    let tank = unit_factory_recipe(386, &[]).unwrap();
    assert_eq!(tank.unit_type, 38);
    assert!((float(tank.build_time) - 2_100.0).abs() < 0.001);
    assert_eq!(tank.requirements, &[(16, 40), (9, 50)]);
    let ship = unit_factory_recipe(387, &[]).unwrap();
    assert_eq!(ship.unit_type, 49);
    assert!((float(ship.build_time) - 2_400.0).abs() < 0.001);
    assert_eq!(ship.requirements, &[(3, 50), (9, 70)]);
    let mech = unit_factory_recipe(388, &[]).unwrap();
    assert_eq!(mech.unit_type, 43);
    assert!((float(mech.build_time) - 2_400.0).abs() < 0.001);
    assert_eq!(mech.requirements, &[(16, 50), (9, 70)]);
    assert_eq!(unit_factory_item_capacity(386, 16), 80);
    assert_eq!(unit_factory_item_capacity(386, 9), 100);
    assert_eq!(unit_factory_item_capacity(387, 9), 140);
    assert_eq!(unit_factory_item_capacity(388, 16), 100);
    assert_eq!(unit_factory_item_capacity(388, 1), 0);
}

#[test]
fn a_plan_that_was_taken_back_is_not_the_first_one() {
    assert!(unit_factory_recipe(377, &[1, 255, 255, 255, 255]).is_none());
    assert!(unit_factory_recipe(386, &[]).is_some());
}

#[test]
fn erekir_units_have_official_specs() {
    let stell = enemy_spec(38).unwrap();
    assert_eq!(stell.entity_class, 43);
    assert!((float(stell.health) - 850.0).abs() < 0.001);
    assert!((float(stell.speed.unwrap()) - 0.75).abs() < 0.001);
    let elude = enemy_spec(49).unwrap();
    assert_eq!(elude.entity_class, 45);
    assert!((float(elude.health) - 600.0).abs() < 0.001);
    let merui = enemy_spec(43).unwrap();
    assert_eq!(merui.entity_class, 24);
    assert!((float(merui.health) - 680.0).abs() < 0.001);
    let locus = enemy_spec(39).unwrap();
    assert_eq!(locus.entity_class, 43);
    assert!((float(locus.health) - 2_100.0).abs() < 0.001);
    let quell = enemy_spec(52).unwrap();
    assert_eq!(quell.entity_class, 5);
    assert!((float(quell.health) - 6_000.0).abs() < 0.001);
}

#[test]
fn erekir_snapshot_closure_classes_match_v1597_jar() {
    let cases: &[(i16, u8, f32, f32)] = &[
        (41, 43, 11_000.0, 0.63),
        (42, 43, 22_000.0, 0.48),
        (44, 24, 1_100.0, 0.6),
        (47, 24, 6_500.0, 0.6),
        (48, 24, 18_000.0, 1.1),
        (49, 45, 600.0, 1.8),
        (56, 46, 500.0, 1.2),
        (57, 46, 20_000.0, 1.0),
    ];
    for &(id, class, health, speed) in cases {
        let spec = enemy_spec(id).unwrap_or_else(|| panic!("unit {id} must have an enemy spec"));
        assert_eq!(spec.entity_class, class, "entity class of unit {id}");
        assert!((float(spec.health) - health).abs() < 0.001, "health of unit {id}");
        assert!((float(spec.speed.unwrap()) - speed).abs() < 0.001, "speed of unit {id}");
    }
    assert_eq!(enemy_weapon_mount_count(56), 0);
    assert_eq!(enemy_weapon_mount_count(57), 0);
}

#[test]
fn remaining_vanilla_units_have_official_specs() {
    let cases: &[(i16, u8, f32, f32, f32)] = &[
        (45, 24, 2_700.0, 0.65, 1.5),
        (46, 39, 55.0, 3.35, 140.0),
        (53, 39, 45.0, 4.3, 110.0),
        (55, 39, 70.0, 4.6, 140.0),
        (58, 5, 300.0, 5.6, 0.0),
        (59, 5, 500.0, 7.0, 0.0),
        (60, 5, 700.0, 7.5, 0.0),
        (61, 2, 1.0, 0.0, 0.0),
        (62, 36, 200.0, 3.5, 0.0),
        (63, 36, 90.0, 1.3, 0.0),
        (64, 49, 200.0, 1.1, 0.0),
        (65, 39, 240.0, 4.6, 1_000.0),
        (66, 39, 500.0, 2.5, 320.0),
        (67, 39, 300.0, 4.4, 1_800.0),
        (68, 39, 50.0, 4.8, 180.0),
        (69, 2, 1.0, 0.0, 0.0),
    ];
    for &(id, class, health, speed, damage) in cases {
        let spec = enemy_spec(id).unwrap_or_else(|| panic!("unit {id} must have an enemy spec"));
        assert_eq!(spec.entity_class, class, "entity class of unit {id}");
        assert!((float(spec.health) - health).abs() < 0.001, "health of unit {id}");
        assert!((float(spec.speed.unwrap()) - speed).abs() < 0.001, "speed of unit {id}");
        assert!(
            (float(spec.attack_damage.unwrap()) - damage).abs() < 0.001,
            "attack damage of unit {id}"
        );
        assert_eq!(spec.unit_type, id, "spec id round-trip of unit {id}");
    }
}

#[test]
fn missile_lifetimes_match_v1605_jar() {
    let cases = [
        (46, 99.6),
        (53, 54.24),
        (55, 102.0),
        (65, 330.0),
        (66, 586.2),
        (67, 84.0),
        (68, 222.0),
    ];
    for (id, lifetime) in cases {
        let got = unit_missile_lifetime(id).unwrap_or_else(|| panic!("lifetime of {id}"));
        assert!((float(got) - lifetime).abs() < 0.001, "lifetime of unit {id}");
    }
    for id in [0i16, 45, 52, 58, 61, 62, 64, 69] {
        assert!(unit_missile_lifetime(id).is_none(), "unit {id}");
    }
}

#[test]
fn test_batch_snapshot_excludes_client_predicted_blocks_and_includes_synced_blocks() {
    let client_predicted = [
        257, 258, 259, 260, 279, 272, 273, 325, 326, 327, 328, 335, 336, 337, 338, 216, 217, 218,
        219, 220, 228, 229, 230, 244, 302, 303, 304, 410, 295, 296, 297, 299, 300, 301, 261, 264,
        265, 266, 267, 268, 269, 270, 274, 278, 411, 412, 413, 414, 415, 418, 430, 431, 432, 433,
        434, 436, 440, 441, 442, 443,
    ];
    for block in client_predicted {
        assert!(
            !is_batch_snapshot_supported(block),
            "block {block} should NOT be in periodic batch snapshot"
        );
        assert!(
            is_block_snapshot_supported(block),
            "block {block} should still have a snapshot codec for on-demand inspection"
        );
    }

    let synced_blocks = [
        308, 309, 310, 311, 312, 315, 316, 320, 321, 322, 329, 201, 202, 203, 204, 205, 210, 212,
        213, 214, 215, 330, 332, 193, 194, 271, 252, 281, 427, 428, 345, 346, 347, 348, 353, 354,
        355, 360, 366, 369, 372, 373, 376, 377, 378, 379, 380, 381, 382, 383, 386, 387, 388, 398,
        399, 400, 401, 402, 403, 404, 405, 406, 407, 408, 409, 5, 6, 7, 8, 9, 10, 11, 12, 13, 14,
        15, 16, 17, 18, 19, 20,
    ];
    for block in synced_blocks {
        assert!(
            is_batch_snapshot_supported(block),
            "synced block {block} MUST be in periodic batch snapshot"
        );
    }

    for core in 339..=344 {
        assert!(is_core_block(core));
        assert!(!is_batch_snapshot_supported(core));
    }
}
