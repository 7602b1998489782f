use oxide_network::conveyor::{
    accept_plain_conveyor_item, conveyor_accept_minitem, conveyor_facing_edge,
    conveyor_rotates, conveyor_side_insert_index, is_plain_conveyor, offset_position,
    tile_relative_to, BeltMath, DynamicTile, DynamicWorld, CONVEYOR_CAPACITY, CONVEYOR_ITEM_SPACE,
    TWO_ITEM_SPACES,
};
use oxide_network::content::{is_batch_snapshot_supported, item_transport_speed};
use oxide_network::logistics::{
    bridge_range, delivery_targets, hand_over, pass_changed, simulate_logistics, step_transport,
    step_worked, transport_speed, Bridges, Delivery, Handoff, Step, Taker, BLOCKED_PROGRESS,
    UNLINKED_BRIDGE_SPEED,
};
use oxide_network::production::inventory_count;
use oxide_network::registry::Registry;

const SPACE: f32 = 0.4;

fn f(x: f32) -> u32 {
    x.to_bits()
}

fn belt_math(
) -> BeltMath<impl Fn(u32) -> u32, impl Fn(u32, u32) -> u32, impl Fn(u32) -> u32> {
    BeltMath {
        ahead: |x: u32| (f32::from_bits(x) + SPACE).to_bits(),
        back: |x: u32, n: u32| (f32::from_bits(x) - n as f32 * SPACE).max(0.0).to_bits(),
        gap: |x: u32| (1.0 - (SPACE - f32::from_bits(x)).max(0.0)).to_bits(),
    }
}

fn tile(position: i32, block: i16, rotation: u8) -> DynamicTile {
    DynamicTile {
        position,
        block,
        rotation,
        team: 1,
        occupied: vec![position],
        stored_item: -1,
        stored_amount: 0,
        transport_progress: 0,
        conveyor_items: Vec::new(),
        inventory: Vec::new(),
        production_progress: 0,
        stored_liquid: -1,
        liquid_amount: 0,
    }
}

fn belt(position: i32, rotation: u8, items: &[(i16, f32)]) -> DynamicTile {
    let mut t = tile(position, 257, rotation);
    t.conveyor_items = items.iter().map(|(item, p)| (*item, f(*p))).collect();
    t.stored_item = items.first().map(|item| item.0).unwrap_or(-1);
    t.stored_amount = items.len() as i32;
    t
}

fn items_of(world: &DynamicWorld, key: i32) -> Vec<(i16, f32)> {
    world
        .tile(key)
        .unwrap()
        .conveyor_items
        .iter()
        .map(|(item, p)| (*item, f32::from_bits(*p)))
        .collect()
}

fn ids_of(items: &[(i16, f32)]) -> Vec<i16> {
    items.iter().map(|item| item.0).collect()
}

fn assert_valid_plain_conveyor_queue(items: &[(i16, f32)]) {
    assert!(items.len() <= CONVEYOR_CAPACITY);
    for (_, progress) in items {
        assert!(
            progress.is_finite() && (0.0..=1.0).contains(progress),
            "invalid conveyor progress {progress}"
        );
    }
    for pair in items.windows(2) {
        assert!(
            pair[0].1 - pair[1].1 >= SPACE - 0.000_01,
            "items are not spaced: {items:?}"
        );
    }
}

fn heal(items: &[(i16, f32)]) -> Vec<(i16, f32)> {
    let bits: Vec<(i16, u32)> = items.iter().map(|(item, p)| (*item, f(*p))).collect();
    belt_math()
        .sanitize_conveyor_queue(&bits)
        .iter()
        .map(|(item, p)| (*item, f32::from_bits(*p)))
        .collect()
}

fn spread(p: u32, i: u32) -> u32 {
    (f32::from_bits(p) - i as f32 * 0.4).rem_euclid(1.0).to_bits()
}

/// Routers, bridges, containers, voids and cores take what comes to them.
fn rule(world: &DynamicWorld, target: i32, _item: i16, from: i32) -> Option<Taker> {
    match world.tile(target).map(|t| t.block) {
        Some(266) | Some(267) => Some(Taker::Slot(target)),
        Some(262) | Some(263) => Some(Taker::Queue(target)),
        Some(345) => Some(Taker::Stock(target)),
        Some(413) => Some(Taker::Void),
        Some(339) => Some(Taker::Core(1)),
        // A sorter passes on to whatever is above it.
        Some(264) => Some(Taker::Belt { key: offset_position(target, 1), from: target }),
        Some(370) if from != 0 => Some(Taker::Store(target)),
        _ => None,
    }
}

fn step(world: &mut DynamicWorld, speed: f32) -> Vec<Step> {
    simulate_logistics(
        &belt_math(),
        world,
        &spread,
        &|_key: i32, p: u32| (f32::from_bits(p) + speed).to_bits(),
        &rule,
        &vec![257, 258, 260, 262, 263, 266, 267],
        &Bridges { links: Registry::new(), incoming: Registry::new() },
    )
}

#[test]
fn conveyor_queue_heals_huge_and_non_finite_progress_without_reordering() {
    let huge = vec![(5, 21_086.43), (6, 21_085.29), (7, 21_085.23)];
    let healed = heal(&huge);
    assert_eq!(ids_of(&healed), [5, 6, 7]);
    assert_valid_plain_conveyor_queue(&healed);
    assert!((healed[0].1 - 1.0).abs() < 0.000_01);
    assert!((healed[1].1 - 0.6).abs() < 0.000_01);
    assert!((healed[2].1 - 0.2).abs() < 0.000_01);

    let non_finite = heal(&[(8, f32::NAN), (9, f32::INFINITY), (10, f32::NEG_INFINITY)]);
    assert_eq!(ids_of(&non_finite), [8, 9, 10]);
    assert_valid_plain_conveyor_queue(&non_finite);
}

#[test]
fn aligned_conveyor_jam_propagates_and_stays_bounded_for_many_ticks() {
    let mut world = DynamicWorld::new();
    let upstream = (10 << 16) | 10;
    let blocked = (11 << 16) | 10;
    world.put(
        upstream,
        belt(upstream, 0, &[(5, 17_725.977), (6, 17_725.879), (7, 17_725.7)]),
    );
    world.put(blocked, belt(blocked, 0, &[(8, 1.0), (9, 0.6), (10, 0.2)]));
    for _ in 0..720 {
        step(&mut world, 0.046);
    }
    let items = items_of(&world, upstream);
    assert_eq!(ids_of(&items), [5, 6, 7], "a jam must preserve FIFO order");
    assert_valid_plain_conveyor_queue(&items);
    assert!(
        (items[0].1 - 0.8).abs() < 0.000_01,
        "downstream minitem=.2 limits the upstream head to .8: {items:?}"
    );
    assert_valid_plain_conveyor_queue(&items_of(&world, blocked));
}

#[test]
fn conveyor_handoff_removes_only_fifo_head() {
    let mut world = DynamicWorld::new();
    let source = (10 << 16) | 10;
    let target = (11 << 16) | 10;
    world.put(source, belt(source, 0, &[(5, 1.0), (6, 0.6), (7, 0.2)]));
    world.put(target, belt(target, 0, &[]));

    let outcomes = step(&mut world, 0.046);
    assert_eq!(
        outcomes,
        vec![
            Step::Belt(Handoff::Accepted {
                item: 5,
                taker: Taker::Belt { key: target, from: source }
            }),
            Step::Belt(Handoff::Waiting)
        ]
    );

    let source_items = items_of(&world, source);
    assert_eq!(ids_of(&source_items), [6, 7]);
    assert_valid_plain_conveyor_queue(&source_items);
    let target_items = items_of(&world, target);
    assert_eq!(target_items.first().map(|item| item.0), Some(5));
    assert_valid_plain_conveyor_queue(&target_items);
}

#[test]
fn conveyor_rejects_illegal_side_and_front_crossing() {
    let math = belt_math();
    let mut world = DynamicWorld::new();
    let belt_key = (11 << 16) | 10;
    let rear = (10 << 16) | 10;
    let side = (11 << 16) | 11;
    let front = (12 << 16) | 10;
    world.put(belt_key, belt(belt_key, 0, &[(5, 1.0), (6, 0.6), (7, 0.2)]));
    world.put(rear, belt(rear, 0, &[]));
    world.put(side, belt(side, 3, &[]));
    world.put(front, belt(front, 2, &[]));

    assert!(!accept_plain_conveyor_item(&math, &mut world, belt_key, 0, Some(rear)));
    assert!(!accept_plain_conveyor_item(&math, &mut world, belt_key, 0, Some(side)));
    assert!(!accept_plain_conveyor_item(&math, &mut world, belt_key, 0, Some(front)));
    assert_eq!(items_of(&world, belt_key).len(), 3);

    world.put(belt_key, belt(belt_key, 0, &[]));
    assert!(accept_plain_conveyor_item(&math, &mut world, belt_key, 0, Some(rear)));
    assert_eq!(items_of(&world, belt_key), vec![(0, 0.0)]);
    world.put(belt_key, belt(belt_key, 0, &[]));
    assert!(accept_plain_conveyor_item(&math, &mut world, belt_key, 0, Some(side)));
    assert_eq!(items_of(&world, belt_key), vec![(0, 0.5)]);
    world.put(belt_key, belt(belt_key, 0, &[]));
    assert!(!accept_plain_conveyor_item(&math, &mut world, belt_key, 0, Some(front)));
}

#[test]
fn conveyor_entry_rules() {
    let math = belt_math();
    let key = (11 << 16) | 10;
    let rear = (10 << 16) | 10;
    let side = (11 << 16) | 11;
    // Without a source the belt needs the item space.
    let mut world = DynamicWorld::new();
    world.put(key, belt(key, 0, &[(5, 0.39)]));
    assert!(!accept_plain_conveyor_item(&math, &mut world, key, 9, None));
    world.put(key, belt(key, 0, &[(5, 0.4)]));
    assert!(accept_plain_conveyor_item(&math, &mut world, key, 9, None));
    assert_eq!(items_of(&world, key), vec![(5, 0.4), (9, 0.0)]);
    // What came in during the tick does not count.
    assert!(accept_plain_conveyor_item(&math, &mut world, key, 10, None));
    assert!(!accept_plain_conveyor_item(&math, &mut world, key, 11, None));
    let t = world.tile(key).unwrap();
    assert_eq!((t.stored_item, t.stored_amount), (5, 3));
    // No such belt, no such source, no belt at all.
    assert!(!accept_plain_conveyor_item(&math, &mut world, 1, 9, None));
    assert!(!accept_plain_conveyor_item(&math, &mut world, key, 9, Some(77)));
    world.put(rear, tile(rear, 300, 0));
    assert!(!accept_plain_conveyor_item(&math, &mut world, rear, 9, None));
    // An armored belt takes side items from conveyors only, rear items from anything.
    let mut armored = belt(key, 0, &[]);
    armored.block = 260;
    world.put(key, armored);
    world.put(side, tile(side, 300, 0));
    assert!(!accept_plain_conveyor_item(&math, &mut world, key, 9, Some(side)));
    assert!(accept_plain_conveyor_item(&math, &mut world, key, 9, Some(rear)));
    // A large source is found through its footprint.
    let mut world = DynamicWorld::new();
    world.put(key, belt(key, 0, &[]));
    let far = (8 << 16) | 10;
    let mut drill = tile(far, 325, 0);
    drill.occupied = vec![far, rear];
    world.put(far, drill);
    world.footprint.insert(rear, far);
    assert!(accept_plain_conveyor_item(&math, &mut world, key, 9, Some(rear)));
    // The shared fields of an old save fill the belt.
    let mut old = belt(key, 0, &[]);
    old.stored_item = 4;
    old.stored_amount = 7;
    old.transport_progress = f(0.9);
    world.put(key, old);
    assert_eq!(
        math.normalized_conveyor_items(world.tile(key).unwrap()).len(),
        3
    );
    assert!(!accept_plain_conveyor_item(&math, &mut world, key, 9, None));
}

#[test]
fn room_and_middle_of_a_belt() {
    let q = |items: &[(i16, f32)]| -> Vec<(i16, u32)> {
        items.iter().map(|(item, p)| (*item, f(*p))).collect()
    };
    assert_eq!(f32::from_bits(conveyor_accept_minitem(&q(&[]))), 1.0);
    assert_eq!(
        f32::from_bits(conveyor_accept_minitem(&q(&[(1, 0.8), (2, 0.3), (3, 0.0)]))),
        0.3
    );
    assert_eq!(
        f32::from_bits(conveyor_accept_minitem(&q(&[(1, f32::NAN), (2, -0.5)]))),
        1.0
    );
    assert_eq!(conveyor_side_insert_index(&q(&[])), 0);
    assert_eq!(conveyor_side_insert_index(&q(&[(1, 0.9)])), 1);
    assert_eq!(conveyor_side_insert_index(&q(&[(1, 0.9), (2, 0.3)])), 2);
    assert_eq!(conveyor_side_insert_index(&q(&[(1, 0.9), (2, 0.2), (3, 0.1)])), 2);
    assert_eq!(conveyor_side_insert_index(&q(&[(1, 0.4), (2, 0.2), (3, 0.1)])), 3);
}

#[test]
fn blocks_and_directions() {
    for block in [257, 258, 260] {
        assert!(is_plain_conveyor(block) && conveyor_rotates(block));
    }
    for block in [261, 264, 265, 266, 267, 268, 269] {
        assert!(!is_plain_conveyor(block) && conveyor_rotates(block));
    }
    assert!(!conveyor_rotates(259) && !conveyor_rotates(262) && !conveyor_rotates(263));
    let here = (10 << 16) | 10;
    let around = [(11 << 16) | 10, (10 << 16) | 11, (9 << 16) | 10, (10 << 16) | 9];
    for (rotation, there) in around.iter().enumerate() {
        assert_eq!(offset_position(here, rotation as u8), *there);
        assert_eq!(offset_position(here, rotation as u8 + 4), *there);
        assert_eq!(tile_relative_to(here, *there), Some(rotation as u8));
    }
    assert_eq!(tile_relative_to(here, here), None);
    assert_eq!(tile_relative_to(here, (11 << 16) | 11), None);
    let mut t = tile(here, 257, 0);
    assert_eq!(conveyor_facing_edge(&t, around[0]), Some(here));
    t.occupied = vec![around[2], here];
    assert_eq!(conveyor_facing_edge(&t, around[0]), Some(here));
    t.occupied = vec![];
    assert_eq!(conveyor_facing_edge(&t, (12 << 16) | 10), None);
    assert_eq!(bridge_range(262), 4);
    assert_eq!(bridge_range(263), 12);
    assert_eq!(transport_speed(262, 7, false), UNLINKED_BRIDGE_SPEED);
    assert_eq!(f32::from_bits(UNLINKED_BRIDGE_SPEED), 1.0 / 5.0);
    assert_eq!(transport_speed(262, 7, true), 7);
    assert_eq!(transport_speed(266, 7, false), 7);
    assert_eq!(f32::from_bits(BLOCKED_PROGRESS), 1.0 - f32::EPSILON);
}

fn step_one(
    world: &mut DynamicWorld,
    key: i32,
    link: Option<i32>,
    incoming: &Vec<i32>,
    takes: i32,
) -> Delivery {
    step_transport(
        &belt_math(),
        world,
        &spread,
        &|_key: i32, p: u32| (f32::from_bits(p) + 0.25).to_bits(),
        &|_world: &DynamicWorld, target: i32, _item: i16, _from: i32| {
            (target == takes).then_some(Taker::Void)
        },
        key,
        link,
        incoming,
    )
}

#[test]
fn routers_turn_past_the_direction_that_took_the_item() {
    let mut world = DynamicWorld::new();
    let key = (10 << 16) | 10;
    let none = Vec::new();
    let mut router = tile(key, 266, 1);
    router.stored_item = 6;
    router.stored_amount = 1;
    router.transport_progress = f(0.5);
    world.put(key, router);
    // Half way: nothing has arrived.
    assert_eq!(step_one(&mut world, key, None, &none, 0), Delivery::Waiting);
    assert_eq!(world.tile(key).unwrap().transport_progress, f(0.75));
    // Nobody takes it: it waits just before the end.
    assert_eq!(step_one(&mut world, key, None, &none, 0), Delivery::Blocked);
    let t = world.tile(key).unwrap();
    assert_eq!((t.stored_item, t.stored_amount, t.rotation), (6, 1, 1));
    assert_eq!(t.transport_progress, BLOCKED_PROGRESS);
    // The left neighbour takes it: second try from rotation 1.
    let left = (9 << 16) | 10;
    assert_eq!(
        step_one(&mut world, key, None, &none, left),
        Delivery::Taken { target: 1, item: 6, taker: Taker::Void }
    );
    let t = world.tile(key).unwrap();
    assert_eq!((t.stored_item, t.stored_amount, t.rotation), (-1, 0, 3));
    assert_eq!(step_one(&mut world, key, None, &none, left), Delivery::Idle);
}

#[test]
fn large_routers_try_every_neighbour_once() {
    let a = (10 << 16) | 10;
    let b = (11 << 16) | 10;
    let mut t = tile(a, 267, 0);
    t.occupied = vec![a, b];
    let all: Vec<i32> = delivery_targets(&t, None, &Vec::new()).iter().map(|x| x.0).collect();
    assert_eq!(all.len(), 6);
    assert!(!all.contains(&a) && !all.contains(&b));
    t.rotation = 2;
    let turned: Vec<i32> = delivery_targets(&t, None, &Vec::new()).iter().map(|x| x.0).collect();
    assert_eq!(turned[0], all[2]);
    assert_eq!(turned[5], all[1]);
}

#[test]
fn bridges_follow_their_link_or_dump_around_them() {
    let key = (10 << 16) | 10;
    let far = (14 << 16) | 10;
    let t = tile(key, 262, 0);
    assert_eq!(delivery_targets(&t, Some(far), &Vec::new()), vec![(far, None)]);
    let incoming = vec![(9 << 16) | 10];
    let around = delivery_targets(&t, None, &incoming);
    assert_eq!(
        around,
        vec![
            ((11 << 16) | 10, Some(0)),
            ((10 << 16) | 11, Some(1)),
            ((10 << 16) | 9, Some(3))
        ]
    );
    // The queue of a blocked bridge keeps its order.
    let mut world = DynamicWorld::new();
    let mut t = tile(key, 262, 0);
    t.conveyor_items = vec![(1, f(0.9)), (2, f(0.5)), (3, f(0.1))];
    world.put(key, t);
    assert_eq!(
        step_one(&mut world, key, Some(far), &incoming, 0),
        Delivery::Blocked
    );
    assert_eq!(ids_of(&items_of(&world, key)), [1, 2, 3]);
    assert_eq!(
        step_one(&mut world, key, Some(far), &incoming, far),
        Delivery::Taken { target: 0, item: 1, taker: Taker::Void }
    );
    assert_eq!(ids_of(&items_of(&world, key)), [2, 3]);
    // An old save is spread out.
    let mut old = tile(key, 262, 0);
    old.stored_item = 8;
    old.stored_amount = 20;
    old.transport_progress = f(0.5);
    world.put(key, old);
    assert_eq!(
        step_one(&mut world, key, Some(far), &incoming, far),
        Delivery::Taken { target: 0, item: 8, taker: Taker::Void }
    );
    assert_eq!(items_of(&world, key).len(), 13);
}

#[test]
fn a_pass_over_empty_buildings_changes_nothing() {
    let mut world = DynamicWorld::new();
    let drill = (5 << 16) | 5;
    let router = (10 << 16) | 10;
    let next = (11 << 16) | 10;
    world.put(drill, tile(drill, 325, 0));
    world.put(router, tile(router, 266, 0));
    world.put(next, belt(next, 0, &[]));
    let steps = step(&mut world, 0.046);
    assert_eq!(
        steps,
        vec![
            Step::Skipped,
            Step::Queue(Delivery::Idle),
            Step::Belt(Handoff::Idle)
        ]
    );
    assert!(!pass_changed(&steps));
    // An item on its way is a change, and so is one that cannot move.
    world.put(next, belt(next, 0, &[(3, 0.5)]));
    let steps = step(&mut world, 0.046);
    assert_eq!(steps[2], Step::Belt(Handoff::Waiting));
    assert!(step_worked(&steps[2]) && !step_worked(&steps[1]));
    assert!(pass_changed(&steps));
    world.put(next, belt(next, 0, &[(3, 1.0)]));
    let steps = step(&mut world, 0.046);
    assert_eq!(steps[2], Step::Belt(Handoff::Refused));
    assert!(pass_changed(&steps));
    assert!(!pass_changed(&Vec::new()));
}

#[test]
fn one_pass_runs_every_building_once() {
    let mut world = DynamicWorld::new();
    let drill = (5 << 16) | 5;
    let router = (10 << 16) | 10;
    let next = (11 << 16) | 10;
    world.put(drill, tile(drill, 325, 0));
    let mut r = tile(router, 266, 0);
    r.stored_item = 4;
    r.stored_amount = 1;
    r.transport_progress = f(0.99);
    world.put(router, r);
    world.put(next, belt(next, 0, &[]));
    assert_eq!(
        step(&mut world, 0.125),
        vec![
            Step::Skipped,
            Step::Queue(Delivery::Taken {
                target: 0,
                item: 4,
                taker: Taker::Belt { key: next, from: router }
            }),
            Step::Belt(Handoff::Waiting)
        ]
    );
    assert_eq!(items_of(&world, next), vec![(4, 0.125)]);
    assert_eq!(world.tile(router).unwrap().rotation, 1);
}

#[test]
fn router_forwards_one_item_every_eight_ticks() {
    let mut world = DynamicWorld::new();
    let router_pos = (10 << 16) | 10;
    world.put(router_pos, tile(router_pos, 266, 0));
    let void_pos = (11 << 16) | 10;
    world.put(void_pos, tile(void_pos, 413, 0));
    assert!(hand_over(&belt_math(), &mut world, &spread, 5, Taker::Slot(router_pos)));
    let speed = f32::from_bits(item_transport_speed(266).unwrap());
    for _ in 0..7 {
        step(&mut world, speed);
        assert_eq!(
            world.tile(router_pos).unwrap().stored_amount,
            1,
            "item must not leave before tick 8"
        );
    }
    step(&mut world, speed);
    assert_eq!(world.tile(router_pos).unwrap().stored_amount, 0);
}

#[test]
fn test_conveyor_loop_long_continuity_no_reset() {
    let mut world = DynamicWorld::new();
    let p_a = (10 << 16) | 10;
    let p_b = (10 << 16) | 11;
    let p_c = (11 << 16) | 11;
    let p_d = (11 << 16) | 10;
    world.put(p_a, belt(p_a, 1, &[(1, 0.0)]));
    world.put(p_b, belt(p_b, 0, &[]));
    world.put(p_c, belt(p_c, 3, &[]));
    world.put(p_d, belt(p_d, 2, &[]));
    assert!(!is_batch_snapshot_supported(257));
    let speed = f32::from_bits(item_transport_speed(257).unwrap());
    for _ in 0..1200 {
        step(&mut world, speed);
    }
    let total_items: usize = [p_a, p_b, p_c, p_d]
        .iter()
        .map(|p| world.tile(*p).unwrap().conveyor_items.len())
        .sum();
    assert_eq!(
        total_items, 1,
        "items in conveyor loop must neither duplicate nor vanish"
    );
}

#[test]
fn handed_items_arrive_whoever_takes_them() {
    let math = belt_math();
    let here = (10 << 16) | 10;
    let next = (11 << 16) | 10;
    let above = (11 << 16) | 11;
    // One belt in front of each kind of building.
    for (block, taker) in [
        (266, Taker::Slot(next)),
        (262, Taker::Queue(next)),
        (345, Taker::Stock(next)),
        (413, Taker::Void),
        (339, Taker::Core(1)),
        (370, Taker::Store(next)),
        (264, Taker::Belt { key: above, from: next }),
    ] {
        let mut world = DynamicWorld::new();
        world.put(here, belt(here, 0, &[(5, 1.0), (6, 0.4)]));
        world.put(next, tile(next, block, 0));
        world.put(above, belt(above, 1, &[]));
        let steps = step(&mut world, 0.0);
        assert_eq!(steps[0], Step::Belt(Handoff::Accepted { item: 5, taker }));
        assert_eq!(ids_of(&items_of(&world, here)), [6]);
        let t = world.tile(next).unwrap();
        match taker {
            Taker::Slot(_) => {
                assert_eq!((t.stored_item, t.stored_amount, t.transport_progress), (5, 1, 0));
            }
            Taker::Queue(_) => assert_eq!(items_of(&world, next), vec![(5, 0.0)]),
            Taker::Stock(_) => assert_eq!(inventory_count(&t.inventory, 5), 1),
            Taker::Belt { .. } => assert_eq!(items_of(&world, above), vec![(5, 0.0)]),
            _ => assert_eq!(t.stored_amount + t.inventory.len() as i32, 0),
        }
    }
    // Nothing is put where there is no room or no such building.
    let mut world = DynamicWorld::new();
    let mut full = tile(next, 266, 0);
    full.stored_item = 3;
    full.stored_amount = 1;
    world.put(next, full);
    assert!(!hand_over(&math, &mut world, &spread, 5, Taker::Slot(next)));
    assert!(!hand_over(&math, &mut world, &spread, 5, Taker::Queue(next)));
    assert!(!hand_over(&math, &mut world, &spread, 5, Taker::Stock(here)));
    assert!(!hand_over(&math, &mut world, &spread, 5, Taker::Slot(here)));
    assert_eq!(world.tile(next).unwrap().stored_item, 3);
    let mut rich = tile(here, 345, 0);
    rich.inventory = vec![(5, i32::MAX)];
    world.put(here, rich);
    assert!(!hand_over(&math, &mut world, &spread, 5, Taker::Stock(here)));
    assert!(hand_over(&math, &mut world, &spread, 6, Taker::Stock(here)));
    assert!(!hand_over(&math, &mut world, &spread, 6, Taker::Slot(here)));
    // A bridge from an old save keeps what it had.
    let mut old = tile(above, 262, 0);
    old.stored_item = 8;
    old.stored_amount = 2;
    old.transport_progress = f(0.5);
    world.put(above, old);
    assert!(hand_over(&math, &mut world, &spread, 5, Taker::Queue(above)));
    assert_eq!(ids_of(&items_of(&world, above)), [8, 8, 5]);
}

#[test]
fn sums_are_right_but_for_rounding() {
    let math = belt_math();
    let limit = 1.0 / 4_194_304.0;
    for i in 0..=20_000u32 {
        let x = i as f32 * 0.000_1;
        let ahead = f64::from(f32::from_bits((math.ahead)(f(x))));
        let back = f64::from(f32::from_bits((math.back)(f(x), 1)));
        let space = f64::from(SPACE);
        assert!((ahead - (f64::from(x) + space)).abs() <= limit, "{x}");
        assert!((back - (f64::from(x) - space).max(0.0)).abs() <= limit, "{x}");
    }
}

#[test]
fn healed_items_keep_their_distance() {
    let places = [-3.0, 0.0, 0.1, 0.39, 0.4, 0.399_995, 0.5, 0.79, 0.8, 1.0, 7_000.0, f32::NAN];
    for a in places {
        for b in places {
            for c in places {
                let once = heal(&[(1, a), (2, b), (3, c)]);
                for pair in once.windows(2) {
                    assert!(pair[0].1 - pair[1].1 >= 0.4 - 1e-5, "{once:?}");
                }
                for (first, second) in once.iter().zip(heal(&once)) {
                    assert!((first.1 - second.1).abs() <= 2e-5, "{once:?}");
                }
            }
        }
    }
    // A queue that keeps its distance but for a slack hardly moves.
    let slack = [(1, 0.799_981), (2, 0.399_991), (3, 0.0)];
    for (before, after) in slack.iter().zip(heal(&slack)) {
        assert!((before.1 - after.1).abs() <= 2.1e-5, "{before:?} {after:?}");
    }
}

#[test]
fn healed_queues_stay_as_they_are() {
    let math = belt_math();
    assert_eq!((math.ahead)(0), CONVEYOR_ITEM_SPACE);
    assert_eq!((math.ahead)(CONVEYOR_ITEM_SPACE), TWO_ITEM_SPACES);
    assert_eq!((math.back)(TWO_ITEM_SPACES, 1), CONVEYOR_ITEM_SPACE);
    assert_eq!((math.back)(CONVEYOR_ITEM_SPACE, 1), 0);
    for items in [
        vec![(1, 0.0), (2, 0.0), (3, 0.0)],
        vec![(1, 0.8), (2, 0.4), (3, 0.0)],
        vec![(1, 9.0), (2, 0.1)],
        vec![(1, 0.75), (2, 0.25)],
    ] {
        let once = heal(&items);
        assert_valid_plain_conveyor_queue(&once);
        assert_eq!(heal(&once), once);
    }
}
