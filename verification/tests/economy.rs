use oxide_network::conveyor::DynamicTile;
use oxide_network::economy::{
    drill_efficiency, drill_liquid_boost, simulate_base_drills, simulate_base_factories,
    store_deliveries, tick_drill, BaseBuilding, DrillTick, Economy, RecipeBook,
};
use oxide_network::logistics::{Delivery, Handoff, Step, Taker};
use oxide_network::production::{
    craft_cycles, craft_once, deposit_core_items, inventory_add, inventory_count,
    inventory_remove, inventory_total, FactoryRecipe, Output,
};
use oxide_network::registry::Registry;

fn f(x: f32) -> u32 {
    x.to_bits()
}

fn tile(position: i32, block: i16) -> DynamicTile {
    DynamicTile {
        position,
        block,
        rotation: 0,
        team: 1,
        occupied: vec![position],
        stored_item: -1,
        stored_amount: 0,
        transport_progress: 0,
        conveyor_items: Vec::new(),
        inventory: Vec::new(),
        production_progress: 0,
        stored_liquid: -1,
        liquid_amount: 0,
    }
}

fn base(position: i32, block: i16) -> BaseBuilding {
    BaseBuilding {
        position,
        block,
        team: 1,
        occupied: vec![position],
        inventory: Vec::new(),
    }
}

/// Two coal make one graphite in 90 ticks.
fn press() -> FactoryRecipe {
    FactoryRecipe {
        inputs: vec![(5, 2)],
        output: (3, 1),
        craft_time: f(90.0),
    }
}

fn due(list: &[(i32, u32)]) -> Registry<u32> {
    let mut r = Registry::new();
    for (key, cycles) in list {
        r.insert(*key, *cycles);
    }
    r
}

fn yields(list: &[(i32, i16, i32)]) -> Registry<(i16, i32)> {
    let mut r = Registry::new();
    for (key, item, amount) in list {
        r.insert(*key, (*item, *amount));
    }
    r
}

fn economy() -> Economy {
    let mut e = Economy::new(4000);
    e.cores.insert(1, vec![0; 21]);
    e
}

fn core_of(e: &Economy) -> Vec<i32> {
    e.cores.get(1).unwrap().clone()
}

#[test]
fn upstream_application_block_inventories_1597_add_remove_total() {
    let mut inventory = Vec::new();
    inventory_add(&mut inventory, 5, 5); // coal
    inventory_add(&mut inventory, 6, 50); // titanium
    assert_eq!(inventory_total(&inventory), 55);

    assert!(!inventory_remove(&mut inventory, 11, 10)); // absent phase fabric
    assert!(inventory_remove(&mut inventory, 6, 10));
    assert_eq!(inventory_total(&inventory), 45);
    assert_eq!(inventory_count(&inventory, 6), 40);
}

#[test]
fn inventories_never_go_below_nothing() {
    let mut inventory = vec![(1, 3)];
    assert!(!inventory_remove(&mut inventory, 1, 4));
    assert_eq!(inventory, vec![(1, 3)]);
    inventory_add(&mut inventory, 1, 2);
    assert_eq!(inventory, vec![(1, 5)]);
    assert!(inventory_remove(&mut inventory, 1, 5));
    assert!(inventory.is_empty());
}

#[test]
fn base_map_drills_feed_the_team_core() {
    let mut e = economy();
    let pos = (10 << 16) | 10;
    e.base.insert(pos, base(pos, 325));
    let drills = vec![325];
    let mut progress = 0.0f32;
    // 600 ticks of drill time and 50 for the hardness of copper.
    let mut run = |e: &mut Economy| {
        progress += 650.0;
        let mut produced = 0;
        while progress >= 650.0 {
            progress -= 650.0;
            produced += 1;
        }
        simulate_base_drills(e, &drills, &yields(&[(pos, 0, produced)]))
    };
    let before = core_of(&e)[0];
    assert!(run(&mut e));
    assert_eq!(core_of(&e)[0], before + 1, "one copper mined into the core");
    assert!(run(&mut e));
    assert_eq!(core_of(&e)[0], before + 2, "progress persists across ticks");
}

#[test]
fn loaded_drill_is_not_simulated_twice_through_base_registry() {
    let mut e = economy();
    let pos = (10 << 16) | 10;
    e.base.insert(pos, base(pos, 325));
    e.world.put(pos, tile(pos, 325));
    let before = core_of(&e);
    assert!(!simulate_base_drills(&mut e, &vec![325], &yields(&[(pos, 0, 1)])));
    assert_eq!(
        core_of(&e),
        before,
        "the compatibility copy must not mint a second item"
    );
    // Other blocks, drills without ore and drills that are not done deliver nothing.
    let mut e = economy();
    e.base.insert(1, base(1, 300));
    e.base.insert(2, base(2, 325));
    assert!(!simulate_base_drills(&mut e, &vec![325], &yields(&[])));
    assert!(!simulate_base_drills(&mut e, &vec![325], &yields(&[(2, 0, 0), (1, 0, 5)])));
    assert_eq!(core_of(&e)[0], 0);
}

#[test]
fn base_map_factories_craft_from_the_team_core() {
    let mut e = economy();
    let pos = (12 << 16) | 12;
    e.base.insert(pos, base(pos, 181));
    let mut items = vec![0; 21];
    items[5] = 10;
    e.cores.insert(1, items);
    let book = RecipeBook {
        recipes: vec![(181, press())],
    };
    let once = due(&[(pos, 1)]);
    assert_eq!(simulate_base_factories(&mut e, &book, &once), vec![(pos, 1)]);
    assert_eq!(core_of(&e)[5], 8, "two coal consumed");
    assert_eq!(core_of(&e)[3], 1, "one graphite crafted");
    assert_eq!(simulate_base_factories(&mut e, &book, &once), vec![(pos, 1)]);
    assert_eq!(core_of(&e)[5], 6, "second craft");
    assert_eq!(core_of(&e)[3], 2);
    // More cycles than coal.
    assert_eq!(
        simulate_base_factories(&mut e, &book, &due(&[(pos, 9)])),
        vec![(pos, 3)]
    );
    assert_eq!(core_of(&e)[5], 0);
    assert_eq!(core_of(&e)[3], 5);
}

#[test]
fn factories_on_the_map_keep_their_output() {
    let mut e = economy();
    let pos = 77;
    let mut t = tile(pos, 181);
    t.inventory = vec![(5, 3)];
    e.world.put(pos, t);
    e.base.insert(pos, base(pos, 181));
    e.base.insert(78, base(78, 999));
    let mut items = vec![0; 21];
    items[5] = 1;
    e.cores.insert(1, items);
    let book = RecipeBook {
        recipes: vec![(181, press())],
    };
    assert_eq!(
        simulate_base_factories(&mut e, &book, &due(&[(pos, 5), (78, 5)])),
        vec![(pos, 2)]
    );
    assert_eq!(e.world.tile(pos).unwrap().inventory, vec![(3, 2)]);
    assert_eq!(core_of(&e)[5], 0, "the missing coal came from the core");
    assert_eq!(core_of(&e)[3], 0);
}

#[test]
fn only_a_factory_that_keeps_its_output_runs_out_of_room() {
    let book = RecipeBook {
        recipes: vec![(181, press())],
    };
    let mut items = vec![0; 21];
    items[5] = 6;
    let mut e = economy();
    let mut full = base(5, 181);
    full.inventory = vec![(3, i32::MAX)];
    e.base.insert(5, full);
    e.cores.insert(1, items.clone());
    assert_eq!(simulate_base_factories(&mut e, &book, &due(&[(5, 2)])), vec![(5, 2)]);
    assert_eq!(core_of(&e)[5], 2);
    assert_eq!(core_of(&e)[3], 2, "the output went to the core");
    assert_eq!(e.base.get(5).unwrap().inventory, vec![(3, i32::MAX)]);
    // On the map there is room for one more.
    let mut e = economy();
    let mut t = tile(6, 181);
    t.inventory = vec![(3, i32::MAX - 1)];
    e.world.put(6, t);
    e.cores.insert(1, items);
    assert_eq!(simulate_base_factories(&mut e, &book, &due(&[(6, 2)])), vec![(6, 1)]);
    assert_eq!(e.world.tile(6).unwrap().inventory, vec![(3, i32::MAX)]);
    assert_eq!(core_of(&e)[5], 4);
}

#[test]
fn a_factory_with_a_disordered_inventory_does_not_hold_up_the_others() {
    let book = RecipeBook {
        recipes: vec![(181, press())],
    };
    let mut e = economy();
    let mut odd = base(5, 181);
    odd.inventory = vec![(5, 1), (5, 1)];
    e.base.insert(5, odd);
    e.base.insert(6, base(6, 181));
    let mut items = vec![0; 21];
    items[5] = 2;
    e.cores.insert(1, items);
    let crafted = simulate_base_factories(&mut e, &book, &due(&[(5, 0), (6, 1)]));
    assert_eq!(crafted, vec![(5, 0), (6, 1)]);
    assert_eq!(e.base.get(5).unwrap().inventory, vec![(5, 1), (5, 1)]);
    assert_eq!(core_of(&e)[3], 1);
}

#[test]
fn a_craft_that_is_not_paid_for_changes_nothing() {
    let mut inventory = vec![(5, 1)];
    let mut core = vec![0, 0, 0, 0, 0, 0];
    assert!(!craft_once(&mut inventory, &mut core, &press(), Output::Own));
    assert_eq!(inventory, vec![(5, 1)]);
    core[5] = 1;
    assert!(craft_once(&mut inventory, &mut core, &press(), Output::Own));
    assert_eq!(inventory, vec![(3, 1)]);
    assert_eq!(core[5], 0);
    core[5] = 7;
    assert_eq!(craft_cycles(&mut inventory, &mut core, &press(), Output::Core(2), 10), 3);
    assert_eq!((core[5], core[3]), (1, 2));
    // A core keeps what it has beyond its capacity.
    let mut core = vec![9];
    deposit_core_items(&mut core, 0, 5, 4);
    deposit_core_items(&mut core, 1, 5, 4);
    deposit_core_items(&mut core, -1, 5, 4);
    assert_eq!(core, vec![9]);
}

fn run_drill(drill: &mut DynamicTile, ticks: u32) {
    let (intensity, rate, warmup_speed) = drill_liquid_boost(325);
    let intensity = f32::from_bits(intensity);
    let rate = f32::from_bits(rate);
    for _ in 0..ticks {
        let efficiency = f32::from_bits(drill_efficiency(325, None));
        let water = drill.stored_liquid == 0 && f32::from_bits(drill.liquid_amount) > 0.0;
        let speed = (1.0 + (intensity - 1.0) * if water { 1.0 } else { 0.0 }) * efficiency;
        let warm = f32::from_bits(drill.transport_progress);
        let step = f32::from_bits(warmup_speed);
        let before = f32::from_bits(drill.production_progress);
        let tick = DrillTick {
            ore: Some(0),
            capacity: 10,
            efficiency: f(efficiency),
            speed: f(speed),
            water_rate: f(rate),
            warmer: f(warm + step),
            colder: f(warm - step),
            drained: f(f32::from_bits(drill.liquid_amount) - rate),
            delay: f(650.0),
        };
        tick_drill(
            drill,
            &tick,
            &|w: u32| (before + speed * f32::from_bits(w)).to_bits(),
            &|p: u32| (f32::from_bits(p) % 650.0).to_bits(),
        );
    }
}

#[test]
fn drill_water_boost_matches_official_intensity() {
    let mut dry = tile(1, 325);
    dry.transport_progress = f(1.0);
    let mut wet = tile(2, 325);
    wet.stored_liquid = 0;
    wet.liquid_amount = f(20.0);
    wet.transport_progress = f(1.6);
    run_drill(&mut dry, 50);
    run_drill(&mut wet, 50);
    let dry_progress = f32::from_bits(dry.production_progress);
    let wet_progress = f32::from_bits(wet.production_progress);
    assert!(
        (dry_progress - 50.0).abs() < 0.001,
        "dry drill progress {dry_progress}"
    );
    assert!(
        (wet_progress - 50.0 * 1.6 * 1.6).abs() < 0.02,
        "boosted drill progress {wet_progress}"
    );
    assert!((f32::from_bits(wet.transport_progress) - 1.6).abs() < 0.001);
    assert!((f32::from_bits(wet.liquid_amount) - 17.5).abs() < 0.001);
}

#[test]
fn dynamic_drill_warmup_tracks_operation_for_client_sync() {
    let mut drill = tile(1, 325);
    run_drill(&mut drill, 1);
    assert!(
        (f32::from_bits(drill.transport_progress) - 0.015).abs() < 0.0001,
        "official warmupSpeed is applied"
    );
    assert!(
        f32::from_bits(drill.production_progress) > 0.0,
        "an operating drill advances production"
    );
    // A full drill cools down.
    drill.stored_item = 0;
    drill.stored_amount = 10;
    run_drill(&mut drill, 1);
    assert_eq!(f32::from_bits(drill.transport_progress), 0.0);
}

#[test]
fn drills_fill_up_and_dry_out() {
    let mut drill = tile(1, 325);
    drill.transport_progress = f(1.0);
    drill.production_progress = f(649.5);
    drill.stored_liquid = 0;
    drill.liquid_amount = f(0.05);
    run_drill(&mut drill, 1);
    assert_eq!((drill.stored_item, drill.stored_amount), (0, 1));
    assert!(f32::from_bits(drill.production_progress) < 2.0);
    assert_eq!((drill.stored_liquid, drill.liquid_amount), (-1, 0));
    // Another item blocks the drill without stopping it.
    drill.stored_item = 7;
    drill.production_progress = f(649.5);
    run_drill(&mut drill, 1);
    assert_eq!((drill.stored_item, drill.stored_amount), (7, 1));
    assert_eq!(drill_efficiency(327, None), 0);
    assert_eq!(drill_efficiency(327, Some(f(1.5))), f(1.0));
    assert_eq!(drill_efficiency(326, Some(f(-1.0))), 0);
    let (a, b, c) = drill_liquid_boost(326);
    assert_eq!(
        (f32::from_bits(a), f32::from_bits(b), f32::from_bits(c)),
        (1.6, 3.5 / 60.0, 0.015)
    );
    assert_eq!(drill_liquid_boost(1), (f(1.0), 0, f(0.015)));
    assert_eq!(drill_liquid_boost(328), (f(1.8), f(0.1), f(0.01)));
}

#[test]
fn items_for_a_core_are_stored_there() {
    let mut e = economy();
    let before = core_of(&e);
    store_deliveries(
        &mut e,
        &vec![
            Step::Skipped,
            Step::Belt(Handoff::Accepted { item: 0, taker: Taker::Core(1) }),
            Step::Belt(Handoff::Accepted { item: 0, taker: Taker::Void }),
            Step::Queue(Delivery::Taken { target: 2, item: 1, taker: Taker::Core(1) }),
            Step::Queue(Delivery::Taken { target: 0, item: 0, taker: Taker::Core(1) }),
            // A team without a core.
            Step::Belt(Handoff::Accepted { item: 0, taker: Taker::Core(9) }),
            Step::Belt(Handoff::Refused),
        ],
    );
    let after = core_of(&e);
    assert_eq!(after[0], before[0] + 2);
    assert_eq!(after[1], before[1] + 1);
    assert_eq!(after[2..], before[2..]);
}
