//! Item transport: belts, bridges and routers, one building at a time.
//!
//! A step moves the items of one building and hands what arrived to its targets. Which
//! building but a belt takes an item is asked from outside, and so is the arithmetic on
//! progress; the item is put where it goes here.

use crate::conveyor::{
    accept_plain_conveyor_item, copy_queue, is_plain_conveyor, neighbour, offset_position,
    plain_conveyor, pure2, queue_after_entry, value2, with_queue, BeltMath, DynamicTile,
    DynamicWorld, TileView, WorldView,
};
use crate::float_bits::{
    at_most, clamp_to, clamped, larger, le, max_of, min_of, not_a_number, smaller, ONE, ZERO,
};
use crate::production::{added, held, inventory_add, inventory_count, lemma_slot, slot_of};
use crate::registry::Registry;
use vstd::prelude::*;
use vstd::seq_lib::group_to_multiset_ensures;

verus! {

/// The bits of the last number but one before 1: where a blocked item waits.
pub const BLOCKED_PROGRESS: u32 = 0x3F7F_FFFE;

/// The bits of 0.2, the speed of a bridge end that has no link: it hands out an item
/// every five ticks.
pub const UNLINKED_BRIDGE_SPEED: u32 = 0x3E4C_CCCD;

/// The most items that the shared fields of an old save can stand for.
pub const LEGACY_LIMIT: i32 = 14;

// ---------------------------------------------------------------------------
// Blocks.

pub open spec fn bridge(block: i16) -> bool {
    block == 262 || block == 263
}

pub open spec fn router(block: i16) -> bool {
    block == 266 || block == 267
}

/// Whether the block is an item bridge.
pub fn is_bridge(block: i16) -> (r: bool)
    ensures
        r == bridge(block),
{
    matches!(block, 262 | 263)
}

/// Whether the block is a router.
pub fn is_router(block: i16) -> (r: bool)
    ensures
        r == router(block),
{
    matches!(block, 266 | 267)
}

/// How many tiles a bridge spans.
pub open spec fn bridge_span(block: i16) -> i32 {
    if block == 262 { 4 } else { 12 }
}

/// How many tiles a bridge spans.
pub fn bridge_range(block: i16) -> (r: i32)
    ensures
        r == bridge_span(block),
{
    if block == 262 { 4 } else { 12 }
}

/// The speed with which a building moves its items; see [`transport_speed`].
pub open spec fn moving_speed(block: i16, speed: u32, linked: bool) -> u32 {
    if bridge(block) && !linked { UNLINKED_BRIDGE_SPEED } else { speed }
}

/// The speed with which a building moves its items: its own, but for the end of a
/// bridge that leads nowhere.
pub fn transport_speed(block: i16, speed: u32, linked: bool) -> (r: u32)
    ensures
        r == moving_speed(block, speed, linked),
{
    if is_bridge(block) && !linked { UNLINKED_BRIDGE_SPEED } else { speed }
}

// ---------------------------------------------------------------------------
// Handing an item over.

/// Who takes an item that is handed on.
#[derive(Clone, Copy, Debug, PartialEq, Eq, Structural)]
pub enum Taker {
    /// The belt under `key`, to which the item comes from the building at `from`.
    Belt { key: i32, from: i32 },
    /// The one slot of the router under this key.
    Slot(i32),
    /// The rear of the queue of the building under this key.
    Queue(i32),
    /// The inventory of the building under this key.
    Stock(i32),
    /// The core of a team.
    Core(u8),
    /// A store of its own kind in the building under this key: ammunition, or the buffer
    /// of a junction.
    Store(i32),
    /// Nobody: the item is destroyed.
    Void,
}

/// The building on the map that has the item afterwards, if one has.
pub open spec fn taker_key(taker: Taker) -> Option<i32> {
    match taker {
        Taker::Belt { key, .. } => Some(key),
        Taker::Slot(key) => Some(key),
        Taker::Queue(key) => Some(key),
        Taker::Stock(key) => Some(key),
        _ => None,
    }
}

pub open spec fn is_belt(w: WorldView, target: i32) -> bool {
    w.tiles.dom().contains(target) && plain_conveyor(w.tiles[target].block)
}

/// Whether the taker is there and has room: a belt by its own rules, a router when it is
/// empty, a queue and an inventory when they are of such a building.
pub open spec fn takes<A, B, G>(
    math: BeltMath<A, B, G>,
    w: WorldView,
    item: i16,
    taker: Taker,
) -> bool where A: Fn(u32) -> u32, B: Fn(u32, u32) -> u32, G: Fn(u32) -> u32 {
    match taker {
        Taker::Belt { key, from } => queue_after_entry(math, w, key, item, Some(from)) is Some,
        Taker::Slot(key) => w.tiles.dom().contains(key) && router(w.tiles[key].block)
            && w.tiles[key].stored_amount <= 0,
        Taker::Queue(key) => w.tiles.dom().contains(key) && !router(w.tiles[key].block)
            && !plain_conveyor(w.tiles[key].block),
        Taker::Stock(key) => w.tiles.dom().contains(key) && held(w.tiles[key].inventory, item)
            < i32::MAX,
        _ => true,
    }
}

/// The map after the taker has the item.
pub open spec fn handed<A, B, G, S>(
    math: BeltMath<A, B, G>,
    spread: S,
    w: WorldView,
    item: i16,
    taker: Taker,
) -> WorldView where
    A: Fn(u32) -> u32,
    B: Fn(u32, u32) -> u32,
    G: Fn(u32) -> u32,
    S: Fn(u32, u32) -> u32,
 {
    match taker {
        Taker::Belt { key, from } => w.with_tile(
            key,
            with_queue(
                w.tiles[key],
                queue_after_entry(math, w, key, item, Some(from)).unwrap(),
            ),
        ),
        Taker::Slot(key) => w.with_tile(
            key,
            TileView {
                stored_item: item,
                stored_amount: 1,
                transport_progress: ZERO,
                ..w.tiles[key]
            },
        ),
        Taker::Queue(key) => w.with_tile(
            key,
            with_queue(w.tiles[key], queue_now(w.tiles[key], spread).push((item, ZERO))),
        ),
        Taker::Stock(key) => w.with_tile(
            key,
            TileView { inventory: added(w.tiles[key].inventory, item, 1), ..w.tiles[key] },
        ),
        _ => w,
    }
}

/// Whether the rule from outside can have named this taker for an item that comes to
/// `target` from the building at `from`.
pub open spec fn rule_names<O>(
    outside: O,
    w: WorldView,
    target: i32,
    item: i16,
    from: i32,
    named: Option<Taker>,
) -> bool where O: Fn(&DynamicWorld, i32, i16, i32) -> Option<Taker> {
    exists|world: DynamicWorld|
        world@ == w && world.wf() && #[trigger] call_ensures(
            outside,
            (&world, target, item, from),
            named,
        )
}

/// The taker that was named, where it has room.
pub open spec fn admitted<A, B, G>(
    math: BeltMath<A, B, G>,
    w: WorldView,
    item: i16,
    named: Option<Taker>,
) -> Option<Taker> where A: Fn(u32) -> u32, B: Fn(u32, u32) -> u32, G: Fn(u32) -> u32 {
    match named {
        Some(taker) => if takes(math, w, item, taker) { named } else { None },
        None => None,
    }
}

/// Whether this can have come of offering an item to `target`. A belt takes it by its own
/// rules; for everything else the rule from outside names the taker.
pub open spec fn may_answer<A, B, G, O>(
    math: BeltMath<A, B, G>,
    outside: O,
    w: WorldView,
    target: i32,
    item: i16,
    from: i32,
    taken: Option<Taker>,
) -> bool where
    A: Fn(u32) -> u32,
    B: Fn(u32, u32) -> u32,
    G: Fn(u32) -> u32,
    O: Fn(&DynamicWorld, i32, i16, i32) -> Option<Taker>,
 {
    if is_belt(w, target) {
        taken == admitted(math, w, item, Some(Taker::Belt { key: target, from }))
    } else {
        exists|named: Option<Taker>|
            #[trigger] rule_names(outside, w, target, item, from, named) && taken == admitted(
                math,
                w,
                item,
                named,
            )
    }
}

/// What the rule from outside must be ready for: every map and every item.
pub open spec fn answers_all<O>(outside: O) -> bool where
    O: Fn(&DynamicWorld, i32, i16, i32) -> Option<Taker>,
 {
    forall|world: DynamicWorld, target: i32, item: i16, from: i32| #[trigger]
        call_requires(outside, (&world, target, item, from))
}

/// Gives `item` to a taker, where it has room.
pub fn hand_over<A, B, G, S>(
    math: &BeltMath<A, B, G>,
    world: &mut DynamicWorld,
    spread: &S,
    item: i16,
    taker: Taker,
) -> (done: bool) where
    A: Fn(u32) -> u32,
    B: Fn(u32, u32) -> u32,
    G: Fn(u32) -> u32,
    S: Fn(u32, u32) -> u32,

    requires
        math.wf(),
        old(world).wf(),
        pure2(*spread),
    ensures
        final(world).wf(),
        final(world).tiles.spec_keys() == old(world).tiles.spec_keys(),
        done == takes(*math, old(world)@, item, taker),
        final(world)@ == if done {
            handed(*math, *spread, old(world)@, item, taker)
        } else {
            old(world)@
        },
{
    match taker {
        Taker::Belt { key, from } => accept_plain_conveyor_item(
            math,
            world,
            key,
            item,
            Some(from),
        ),
        Taker::Slot(key) => {
            let mut after = match world.tile(key) {
                Some(tile) => tile.copy(),
                None => return false,
            };
            if !is_router(after.block) || after.stored_amount > 0 {
                return false;
            }
            after.stored_item = item;
            after.stored_amount = 1;
            after.transport_progress = ZERO;
            world.put(key, after);
            true
        },
        Taker::Queue(key) => {
            let mut after = match world.tile(key) {
                Some(tile) => tile.copy(),
                None => return false,
            };
            if is_router(after.block) || is_plain_conveyor(after.block) {
                return false;
            }
            let mut queue = queue_of(&after, spread);
            queue.push((item, ZERO));
            after.set_queue(queue);
            world.put(key, after);
            true
        },
        Taker::Stock(key) => {
            let mut after = match world.tile(key) {
                Some(tile) => tile.copy(),
                None => return false,
            };
            if inventory_count(&after.inventory, item) == i32::MAX {
                return false;
            }
            inventory_add(&mut after.inventory, item, 1);
            world.put(key, after);
            true
        },
        _ => true,
    }
}

/// Offers `item`, which comes from the building at `from`, to whatever stands at `target`.
/// Says who has it then.
pub fn offer_item<A, B, G, S, O>(
    math: &BeltMath<A, B, G>,
    world: &mut DynamicWorld,
    spread: &S,
    outside: &O,
    target: i32,
    item: i16,
    from: i32,
) -> (taken: Option<Taker>) where
    A: Fn(u32) -> u32,
    B: Fn(u32, u32) -> u32,
    G: Fn(u32) -> u32,
    S: Fn(u32, u32) -> u32,
    O: Fn(&DynamicWorld, i32, i16, i32) -> Option<Taker>,

    requires
        math.wf(),
        old(world).wf(),
        pure2(*spread),
        answers_all(*outside),
    ensures
        final(world).wf(),
        final(world).tiles.spec_keys() == old(world).tiles.spec_keys(),
        may_answer(*math, *outside, old(world)@, target, item, from, taken),
        final(world)@ == match taken {
            Some(taker) => handed(*math, *spread, old(world)@, item, taker),
            None => old(world)@,
        },
{
    let ghost w = world@;
    let belt: bool = match world.tile(target) {
        Some(tile) => is_plain_conveyor(tile.block),
        None => false,
    };
    let named: Option<Taker> = if belt {
        Some(Taker::Belt { key: target, from })
    } else {
        let named = outside(world, target, item, from);
        assert(rule_names(*outside, w, target, item, from, named));
        named
    };
    match named {
        Some(taker) => if hand_over(math, world, spread, item, taker) { named } else { None },
        None => None,
    }
}

// ---------------------------------------------------------------------------
// Belts.

/// What became of the head of a belt in one step.
#[derive(Clone, Copy, Debug, PartialEq, Eq, Structural)]
pub enum Handoff {
    /// There was nothing on the belt.
    Idle,
    /// The items moved, and the head has not arrived.
    Waiting,
    /// This item was the head, and this is who took it.
    Accepted { item: i16, taker: Taker },
    /// Nobody took it.
    Refused,
}

/// What a function of a building and a number returns.
pub open spec fn value_at<F: Fn(i32, u32) -> u32>(f: F, key: i32, x: u32) -> u32 {
    choose|y: u32| call_ensures(f, (key, x), y)
}

pub open spec fn pure_at<F: Fn(i32, u32) -> u32>(f: F) -> bool {
    &&& forall|key: i32, x: u32| #[trigger] call_requires(f, (key, x))
    &&& forall|key: i32, x: u32, y: u32| #[trigger]
        call_ensures(f, (key, x), y) ==> y == value_at(f, key, x)
}

/// Moves the items from `i` to the rear: each goes as far as the step takes it, but not
/// beyond its limit. The head is limited by `next_max`, every other item by the one ahead
/// of it.
pub open spec fn moved<A, B, G, F>(
    math: BeltMath<A, B, G>,
    advance: F,
    key: i32,
    next_max: u32,
    s: Seq<(i16, u32)>,
    i: int,
) -> Seq<(i16, u32)> where
    A: Fn(u32) -> u32,
    B: Fn(u32, u32) -> u32,
    G: Fn(u32) -> u32,
    F: Fn(i32, u32) -> u32,

    decreases s.len() - i,
{
    if i < 0 || i >= s.len() {
        s
    } else {
        let limit = if i == 0 { next_max } else { larger(math.spec_back(s[i - 1].1, 1), ZERO) };
        let progress = clamped(smaller(value_at(advance, key, s[i].1), limit), ZERO, ONE);
        moved(math, advance, key, next_max, s.update(i, (s[i].0, progress)), i + 1)
    }
}

/// The queue of a belt after its items have moved, before anything is handed on.
pub open spec fn moved_queue<A, B, G, F>(
    math: BeltMath<A, B, G>,
    advance: F,
    w: WorldView,
    key: i32,
) -> Seq<(i16, u32)> where
    A: Fn(u32) -> u32,
    B: Fn(u32, u32) -> u32,
    G: Fn(u32) -> u32,
    F: Fn(i32, u32) -> u32,
 {
    let tile = w.tiles[key];
    let next_max = math.next_max(tile, w.occupant(neighbour(tile.position, tile.rotation)));
    moved(math, advance, key, next_max, math.normalized(tile), 0)
}

/// Whether the head of a queue has arrived.
pub open spec fn arrived(queue: Seq<(i16, u32)>) -> bool {
    queue.len() > 0 && at_most(ONE, queue[0].1)
}

/// Whether this can be the outcome of a step of the belt under `key`.
pub open spec fn may_hand_on<A, B, G, F, O>(
    math: BeltMath<A, B, G>,
    advance: F,
    outside: O,
    w: WorldView,
    key: i32,
    h: Handoff,
) -> bool where
    A: Fn(u32) -> u32,
    B: Fn(u32, u32) -> u32,
    G: Fn(u32) -> u32,
    F: Fn(i32, u32) -> u32,
    O: Fn(&DynamicWorld, i32, i16, i32) -> Option<Taker>,
 {
    let queue = moved_queue(math, advance, w, key);
    if !is_belt(w, key) || math.normalized(w.tiles[key]).len() == 0 {
        h == Handoff::Idle
    } else if arrived(queue) {
        let tile = w.tiles[key];
        let target = neighbour(tile.position, tile.rotation);
        match h {
            Handoff::Idle => false,
            Handoff::Waiting => false,
            Handoff::Accepted { item, taker } => item == queue[0].0 && may_answer(
                math,
                outside,
                w,
                target,
                item,
                tile.position,
                Some(taker),
            ),
            Handoff::Refused => may_answer(
                math,
                outside,
                w,
                target,
                queue[0].0,
                tile.position,
                None,
            ),
        }
    } else {
        h == Handoff::Waiting
    }
}

/// The map after a step of the belt under `key` with this outcome. Only the head leaves,
/// and only to the one who took it.
pub open spec fn belt_after<A, B, G, S, F>(
    math: BeltMath<A, B, G>,
    spread: S,
    advance: F,
    w: WorldView,
    key: i32,
    h: Handoff,
) -> WorldView where
    A: Fn(u32) -> u32,
    B: Fn(u32, u32) -> u32,
    G: Fn(u32) -> u32,
    S: Fn(u32, u32) -> u32,
    F: Fn(i32, u32) -> u32,
 {
    let queue = moved_queue(math, advance, w, key);
    if !is_belt(w, key) || math.normalized(w.tiles[key]).len() == 0 {
        w
    } else {
        match h {
            Handoff::Accepted { item, taker } => {
                let w1 = handed(math, spread, w, item, taker);
                w1.with_tile(key, with_queue(w1.tiles[key], queue.skip(1)))
            },
            _ => w.with_tile(key, with_queue(w.tiles[key], queue)),
        }
    }
}

fn move_items<A, B, G, F>(
    math: &BeltMath<A, B, G>,
    advance: &F,
    key: i32,
    next_max: u32,
    items: Vec<(i16, u32)>,
) -> (r: Vec<(i16, u32)>) where
    A: Fn(u32) -> u32,
    B: Fn(u32, u32) -> u32,
    G: Fn(u32) -> u32,
    F: Fn(i32, u32) -> u32,

    requires
        math.wf(),
        pure_at(*advance),
    ensures
        r@ == moved(*math, *advance, key, next_max, items@, 0),
        r@.len() == items@.len(),
{
    let mut r = items;
    let ghost start = r@;
    let mut i: usize = 0;
    while i < r.len()
        invariant
            math.wf(),
            pure_at(*advance),
            i <= r@.len(),
            r@.len() == start.len(),
            moved(*math, *advance, key, next_max, start, 0) == moved(
                *math,
                *advance,
                key,
                next_max,
                r@,
                i as int,
            ),
        decreases r@.len() - i,
    {
        let limit: u32 = if i == 0 {
            next_max
        } else {
            let behind: u32 = (math.back)(r[i - 1].1, 1);
            assert(behind == math.spec_back(r@[i - 1].1, 1));
            max_of(behind, ZERO)
        };
        let further: u32 = advance(key, r[i].1);
        assert(further == value_at(*advance, key, r@[i as int].1));
        let entry: (i16, u32) = (r[i].0, clamp_to(min_of(further, limit), ZERO, ONE));
        r.set(i, entry);
        i += 1;
    }
    r
}

/// One step of the belt under `key`: its items move head to tail, each bounded by the
/// updated item ahead and the head by an aligned belt downstream; a head that arrived is
/// offered to the next building.
pub fn step_conveyor<A, B, G, S, F, O>(
    math: &BeltMath<A, B, G>,
    world: &mut DynamicWorld,
    spread: &S,
    advance: &F,
    outside: &O,
    key: i32,
) -> (h: Handoff) where
    A: Fn(u32) -> u32,
    B: Fn(u32, u32) -> u32,
    G: Fn(u32) -> u32,
    S: Fn(u32, u32) -> u32,
    F: Fn(i32, u32) -> u32,
    O: Fn(&DynamicWorld, i32, i16, i32) -> Option<Taker>,

    requires
        math.wf(),
        old(world).wf(),
        pure2(*spread),
        pure_at(*advance),
        answers_all(*outside),
    ensures
        final(world).wf(),
        final(world).tiles.spec_keys() == old(world).tiles.spec_keys(),
        may_hand_on(*math, *advance, *outside, old(world)@, key, h),
        final(world)@ == belt_after(*math, *spread, *advance, old(world)@, key, h),
{
    let tile = match world.tile(key) {
        Some(tile) => tile,
        None => return Handoff::Idle,
    };
    if !is_plain_conveyor(tile.block) {
        return Handoff::Idle;
    }
    let queue = math.normalized_conveyor_items(tile);
    if queue.len() == 0 {
        return Handoff::Idle;
    }
    let position: i32 = tile.position;
    let rotation: u8 = tile.rotation;
    let next_max: u32 = math.aligned_conveyor_next_max(world, tile);
    let mut queue = move_items(math, advance, key, next_max, queue);
    assert(queue@ == moved_queue(*math, *advance, world@, key));
    let ghost whole = queue@;
    let mut h = Handoff::Waiting;
    if le(ONE, queue[0].1) {
        let target: i32 = offset_position(position, rotation);
        let item: i16 = queue[0].0;
        match offer_item(math, world, spread, outside, target, item, position) {
            Some(taker) => {
                h = Handoff::Accepted { item, taker };
                queue.remove(0);
                assert(queue@ =~= whole.skip(1));
            },
            None => {
                h = Handoff::Refused;
            },
        }
    }
    let mut after = match world.tile(key) {
        Some(tile) => tile.copy(),
        None => return h,
    };
    after.set_queue(queue);
    world.put(key, after);
    h
}

/// The items of a queue without their progress.
pub open spec fn item_order(queue: Seq<(i16, u32)>) -> Seq<i16> {
    Seq::new(queue.len(), |i: int| queue[i].0)
}

proof fn lemma_moved_keeps_items<A, B, G, F>(
    math: BeltMath<A, B, G>,
    advance: F,
    key: i32,
    next_max: u32,
    s: Seq<(i16, u32)>,
    i: int,
) where
    A: Fn(u32) -> u32,
    B: Fn(u32, u32) -> u32,
    G: Fn(u32) -> u32,
    F: Fn(i32, u32) -> u32,

    ensures
        item_order(moved(math, advance, key, next_max, s, i)) == item_order(s),
    decreases s.len() - i,
{
    if 0 <= i < s.len() {
        let limit = if i == 0 { next_max } else { larger(math.spec_back(s[i - 1].1, 1), ZERO) };
        let progress = clamped(smaller(value_at(advance, key, s[i].1), limit), ZERO, ONE);
        let t = s.update(i, (s[i].0, progress));
        lemma_moved_keeps_items(math, advance, key, next_max, t, i + 1);
        assert(item_order(t) =~= item_order(s));
    }
}

/// A step of a belt never drops or reorders what is on it: a head that was not taken
/// stays with everything behind it, and a head that was taken is the only item that
/// leaves.
pub proof fn law_belt_keeps_order<A, B, G, S, F>(
    math: BeltMath<A, B, G>,
    spread: S,
    advance: F,
    w: WorldView,
    key: i32,
    h: Handoff,
) where
    A: Fn(u32) -> u32,
    B: Fn(u32, u32) -> u32,
    G: Fn(u32) -> u32,
    S: Fn(u32, u32) -> u32,
    F: Fn(i32, u32) -> u32,

    requires
        is_belt(w, key),
        math.normalized(w.tiles[key]).len() > 0,
    ensures
        ({
            let before = item_order(math.normalized(w.tiles[key]));
            let after = item_order(
                belt_after(math, spread, advance, w, key, h).tiles[key].conveyor_items,
            );
            after == if h is Accepted { before.skip(1) } else { before }
        }),
{
    let tile = w.tiles[key];
    let queue = math.normalized(tile);
    let next_max = math.next_max(tile, w.occupant(neighbour(tile.position, tile.rotation)));
    lemma_moved_keeps_items(math, advance, key, next_max, queue, 0);
    let whole = moved_queue(math, advance, w, key);
    assert(whole.len() == item_order(whole).len());
    assert(item_order(whole.skip(1)) =~= item_order(whole).skip(1));
}

/// Moved items stay on the belt and never come closer to the item ahead than its room
/// allows, however far a step would take them.
pub proof fn law_moved_items_stay_on_the_belt<A, B, G, F>(
    math: BeltMath<A, B, G>,
    advance: F,
    w: WorldView,
    key: i32,
    i: int,
) where
    A: Fn(u32) -> u32,
    B: Fn(u32, u32) -> u32,
    G: Fn(u32) -> u32,
    F: Fn(i32, u32) -> u32,

    requires
        math.sane(),
        0 <= i < moved_queue(math, advance, w, key).len(),
    ensures
        ({
            let queue = moved_queue(math, advance, w, key);
            &&& at_most(ZERO, queue[i].1)
            &&& at_most(queue[i].1, ONE)
            &&& i > 0 ==> at_most(queue[i].1, larger(math.spec_back(queue[i - 1].1, 1), ZERO))
        }),
{
    let tile = w.tiles[key];
    let next = w.occupant(neighbour(tile.position, tile.rotation));
    let next_max = math.next_max(tile, next);
    if let Some(n) = next {
        let items = if n.conveyor_items.len() > 0 {
            n.conveyor_items
        } else {
            math.legacy_queue(n)
        };
        math.law_healed_queue_is_on_the_belt(items);
        let queue = math.normalized(n);
        if queue.len() > 0 {
            assert(at_most(ZERO, queue[queue.len() - 1].1));
        }
    }
    lemma_moved_in_range(math, advance, key, next_max, math.normalized(tile), 0);
    assert(in_range(math, moved_queue(math, advance, w, key), i));
}

proof fn lemma_moved_in_range<A, B, G, F>(
    math: BeltMath<A, B, G>,
    advance: F,
    key: i32,
    next_max: u32,
    s: Seq<(i16, u32)>,
    i: int,
) where
    A: Fn(u32) -> u32,
    B: Fn(u32, u32) -> u32,
    G: Fn(u32) -> u32,
    F: Fn(i32, u32) -> u32,

    requires
        !not_a_number(next_max),
        math.sane(),
        0 <= i <= s.len(),
        forall|k: int| 0 <= k < i ==> in_range(math, s, k),
    ensures
        ({
            let out = moved(math, advance, key, next_max, s, i);
            &&& out.len() == s.len()
            &&& forall|k: int| 0 <= k < s.len() ==> in_range(math, out, k)
        }),
    decreases s.len() - i,
{
    if i < s.len() {
        let limit = if i == 0 { next_max } else { larger(math.spec_back(s[i - 1].1, 1), ZERO) };
        let progress = clamped(smaller(value_at(advance, key, s[i].1), limit), ZERO, ONE);
        let t = s.update(i, (s[i].0, progress));
        assert(in_range(math, t, i));
        assert forall|k: int| 0 <= k < i + 1 implies in_range(math, t, k) by {
            if k < i {
                assert(in_range(math, s, k));
            }
        }
        lemma_moved_in_range(math, advance, key, next_max, t, i + 1);
    }
}

/// Whether an item is on the belt and behind the one ahead of it.
spec fn in_range<A, B, G>(math: BeltMath<A, B, G>, s: Seq<(i16, u32)>, k: int) -> bool where
    A: Fn(u32) -> u32,
    B: Fn(u32, u32) -> u32,
    G: Fn(u32) -> u32,
 {
    &&& at_most(ZERO, s[k].1)
    &&& at_most(s[k].1, ONE)
    &&& k > 0 ==> at_most(s[k].1, larger(math.spec_back(s[k - 1].1, 1), ZERO))
}

// ---------------------------------------------------------------------------
// Bridges and routers.

/// The items that a building other than a belt has on the way. A router holds one. An old
/// save without a list is spread out along the building.
pub open spec fn queue_now<F: Fn(u32, u32) -> u32>(tile: TileView, spread: F) -> Seq<(i16, u32)> {
    if router(tile.block) {
        if tile.stored_amount > 0 {
            seq![(tile.stored_item, tile.transport_progress)]
        } else {
            Seq::empty()
        }
    } else if tile.conveyor_items.len() > 0 {
        tile.conveyor_items
    } else if tile.stored_amount > 0 && tile.stored_item >= 0 {
        let amount: int = if tile.stored_amount < LEGACY_LIMIT {
            tile.stored_amount as int
        } else {
            LEGACY_LIMIT as int
        };
        Seq::new(
            amount as nat,
            |i: int| (tile.stored_item, value2(spread, tile.transport_progress, i as u32)),
        )
    } else {
        Seq::empty()
    }
}

/// Every item one step further.
pub open spec fn stepped<F: Fn(i32, u32) -> u32>(
    queue: Seq<(i16, u32)>,
    advance: F,
    key: i32,
) -> Seq<(i16, u32)> {
    Seq::new(queue.len(), |i: int| (queue[i].0, value_at(advance, key, queue[i].1)))
}

/// The first item from `i` on that has arrived, or the end.
pub open spec fn ready_from(queue: Seq<(i16, u32)>, i: int) -> int
    decreases queue.len() - i,
{
    if i >= queue.len() || at_most(ONE, queue[i].1) {
        i
    } else {
        ready_from(queue, i + 1)
    }
}

/// The targets around a building, with the direction in which each was found: the
/// neighbours of what it covers, outside of it, each once. `n` counts the candidates, four
/// for each covered position.
pub open spec fn ring(occupied: Seq<i32>, n: nat) -> Seq<(i32, Option<u8>)>
    decreases n,
{
    if n == 0 {
        Seq::empty()
    } else {
        let before = ring(occupied, (n - 1) as nat);
        let direction = ((n - 1) % 4) as u8;
        let target = neighbour(occupied[(n - 1) / 4], direction);
        if occupied.contains(target) || (exists|j: int|
            0 <= j < before.len() && (#[trigger] before[j]).0 == target) {
            before
        } else {
            before.push((target, Some(direction)))
        }
    }
}

/// The sequence with its first `k` elements at the end.
pub open spec fn rotated<T>(s: Seq<T>, k: int) -> Seq<T> {
    s.skip(k) + s.take(k)
}

/// The neighbours in the four directions from `start` on.
pub open spec fn turned_neighbours(position: i32, start: u8) -> Seq<(i32, Option<u8>)> {
    Seq::new(
        4,
        |i: int|
            {
                let direction = ((start % 4 + i) % 4) as u8;
                (neighbour(position, direction), Some(direction))
            },
    )
}

/// The targets of a building in the order in which they are tried.
pub open spec fn targets_of(tile: TileView, link: Option<i32>, incoming: Seq<i32>) -> Seq<
    (i32, Option<u8>),
> {
    if bridge(tile.block) {
        match link {
            Some(target) => seq![(target, None)],
            None => turned_neighbours(tile.position, 0).filter(
                |t: (i32, Option<u8>)| !incoming.contains(t.0),
            ),
        }
    } else if tile.block == 267 {
        let outputs = ring(tile.occupied, 4 * tile.occupied.len());
        if outputs.len() == 0 {
            outputs
        } else {
            rotated(outputs, tile.rotation as int % outputs.len() as int)
        }
    } else if tile.block == 266 {
        turned_neighbours(tile.position, tile.rotation)
    } else {
        seq![(neighbour(tile.position, tile.rotation), Some(tile.rotation))]
    }
}

fn contains_position(v: &Vec<i32>, x: i32) -> (r: bool)
    ensures
        r == v@.contains(x),
{
    let mut i: usize = 0;
    while i < v.len()
        invariant
            i <= v@.len(),
            forall|j: int| 0 <= j < i ==> v@[j] != x,
        decreases v@.len() - i,
    {
        if v[i] == x {
            assert(v@[i as int] == x);
            return true;
        }
        i += 1;
    }
    false
}

fn has_target(v: &Vec<(i32, Option<u8>)>, x: i32) -> (r: bool)
    ensures
        r == exists|j: int| 0 <= j < v@.len() && (#[trigger] v@[j]).0 == x,
{
    let mut i: usize = 0;
    while i < v.len()
        invariant
            i <= v@.len(),
            forall|j: int| 0 <= j < i ==> (#[trigger] v@[j]).0 != x,
        decreases v@.len() - i,
    {
        if v[i].0 == x {
            assert(v@[i as int].0 == x);
            return true;
        }
        i += 1;
    }
    false
}

fn ring_targets(occupied: &Vec<i32>) -> (r: Vec<(i32, Option<u8>)>)
    ensures
        r@ == ring(occupied@, 4 * occupied@.len()),
{
    let mut outputs: Vec<(i32, Option<u8>)> = Vec::new();
    let mut i: usize = 0;
    while i < occupied.len()
        invariant
            i <= occupied@.len(),
            outputs@ == ring(occupied@, 4 * i as nat),
        decreases occupied@.len() - i,
    {
        let mut direction: u8 = 0;
        while direction < 4
            invariant
                i < occupied@.len(),
                direction <= 4,
                outputs@ == ring(occupied@, (4 * i + direction) as nat),
            decreases 4 - direction,
        {
            let target: i32 = offset_position(occupied[i], direction);
            let ghost n = (4 * i + direction + 1) as nat;
            assert((n - 1) / 4 == i && (n - 1) % 4 == direction);
            if !contains_position(occupied, target) && !has_target(&outputs, target) {
                outputs.push((target, Some(direction)));
            }
            direction += 1;
        }
        i += 1;
    }
    outputs
}

fn rotate_targets(v: Vec<(i32, Option<u8>)>, k: usize) -> (r: Vec<(i32, Option<u8>)>)
    requires
        k <= v@.len(),
    ensures
        r@ == rotated(v@, k as int),
{
    let mut head = v;
    let mut tail = head.split_off(k);
    let ghost first = head@;
    let ghost second = tail@;
    tail.append(&mut head);
    assert(first =~= v@.take(k as int));
    assert(second =~= v@.skip(k as int));
    tail
}

fn neighbour_targets(position: i32, start: u8) -> (r: Vec<(i32, Option<u8>)>)
    ensures
        r@ == turned_neighbours(position, start),
{
    let mut r: Vec<(i32, Option<u8>)> = Vec::new();
    let mut i: u8 = 0;
    while i < 4
        invariant
            i <= 4,
            r@ == turned_neighbours(position, start).take(i as int),
        decreases 4 - i,
    {
        let direction: u8 = (start % 4 + i) % 4;
        r.push((offset_position(position, direction), Some(direction)));
        i += 1;
        assert(r@ =~= turned_neighbours(position, start).take(i as int));
    }
    assert(r@ =~= turned_neighbours(position, start));
    r
}

/// The targets of a building in the order in which they are tried. A linked bridge has
/// its link alone; one without a link has its neighbours except those that feed it. A
/// router goes round from its rotation on. Everything else looks straight ahead.
pub fn delivery_targets(tile: &DynamicTile, link: Option<i32>, incoming: &Vec<i32>) -> (r: Vec<
    (i32, Option<u8>),
>)
    ensures
        r@ == targets_of(tile@, link, incoming@),
{
    if is_bridge(tile.block) {
        let mut r: Vec<(i32, Option<u8>)> = Vec::new();
        match link {
            Some(target) => {
                r.push((target, None));
                assert(r@ =~= seq![(target, None)]);
            },
            None => {
                let around = neighbour_targets(tile.position, 0);
                let ghost free = |t: (i32, Option<u8>)| !incoming@.contains(t.0);
                let mut i: usize = 0;
                assert(around@.take(0).filter(free) =~= Seq::empty()) by {
                    reveal(Seq::filter);
                }
                while i < around.len()
                    invariant
                        i <= around@.len(),
                        free == (|t: (i32, Option<u8>)| !incoming@.contains(t.0)),
                        r@ == around@.take(i as int).filter(free),
                    decreases around@.len() - i,
                {
                    proof {
                        reveal(Seq::filter);
                        assert(around@.take(i + 1).drop_last() =~= around@.take(i as int));
                    }
                    if !contains_position(incoming, around[i].0) {
                        r.push((around[i].0, around[i].1));
                    }
                    i += 1;
                }
                assert(around@.take(i as int) =~= around@);
            },
        }
        return r;
    }
    if tile.block == 267 {
        let outputs = ring_targets(&tile.occupied);
        if outputs.len() == 0 {
            return outputs;
        }
        let start: usize = tile.rotation as usize % outputs.len();
        return rotate_targets(outputs, start);
    }
    if tile.block == 266 {
        return neighbour_targets(tile.position, tile.rotation);
    }
    let mut r: Vec<(i32, Option<u8>)> = Vec::new();
    r.push((offset_position(tile.position, tile.rotation), Some(tile.rotation)));
    assert(r@ =~= seq![(neighbour(tile.position, tile.rotation), Some(tile.rotation))]);
    r
}

/// Whether the target with this number can have been the first for which somebody took
/// the item, or none.
pub open spec fn may_deliver<A, B, G, O>(
    math: BeltMath<A, B, G>,
    outside: O,
    w: WorldView,
    targets: Seq<(i32, Option<u8>)>,
    item: i16,
    from: i32,
    taken: Option<(usize, Taker)>,
) -> bool where
    A: Fn(u32) -> u32,
    B: Fn(u32, u32) -> u32,
    G: Fn(u32) -> u32,
    O: Fn(&DynamicWorld, i32, i16, i32) -> Option<Taker>,
 {
    let tried: int = match taken {
        Some((i, _)) => i as int,
        None => targets.len() as int,
    };
    &&& tried <= targets.len()
    &&& forall|j: int|
        0 <= j < tried ==> may_answer(
            math,
            outside,
            w,
            (#[trigger] targets[j]).0,
            item,
            from,
            None,
        )
    &&& taken matches Some((i, taker)) ==> i < targets.len() && may_answer(
        math,
        outside,
        w,
        targets[i as int].0,
        item,
        from,
        Some(taker),
    )
}

/// Offers `item` to the targets in their order until it is taken. Says for which of them
/// and by whom.
pub fn deliver_item<A, B, G, S, O>(
    math: &BeltMath<A, B, G>,
    world: &mut DynamicWorld,
    spread: &S,
    outside: &O,
    targets: &Vec<(i32, Option<u8>)>,
    item: i16,
    from: i32,
) -> (taken: Option<(usize, Taker)>) where
    A: Fn(u32) -> u32,
    B: Fn(u32, u32) -> u32,
    G: Fn(u32) -> u32,
    S: Fn(u32, u32) -> u32,
    O: Fn(&DynamicWorld, i32, i16, i32) -> Option<Taker>,

    requires
        math.wf(),
        old(world).wf(),
        pure2(*spread),
        answers_all(*outside),
    ensures
        final(world).wf(),
        final(world).tiles.spec_keys() == old(world).tiles.spec_keys(),
        may_deliver(*math, *outside, old(world)@, targets@, item, from, taken),
        final(world)@ == match taken {
            Some((_, taker)) => handed(*math, *spread, old(world)@, item, taker),
            None => old(world)@,
        },
{
    let mut i: usize = 0;
    while i < targets.len()
        invariant
            math.wf(),
            world.wf(),
            world.tiles.spec_keys() == old(world).tiles.spec_keys(),
            pure2(*spread),
            answers_all(*outside),
            i <= targets@.len(),
            world@ == old(world)@,
            forall|j: int|
                0 <= j < i ==> may_answer(
                    *math,
                    *outside,
                    world@,
                    (#[trigger] targets@[j]).0,
                    item,
                    from,
                    None,
                ),
        decreases targets@.len() - i,
    {
        match offer_item(math, world, spread, outside, targets[i].0, item, from) {
            Some(taker) => return Some((i, taker)),
            None => {},
        }
        i += 1;
    }
    None
}

/// What one step of a bridge, a router or another queued building did.
#[derive(Clone, Copy, Debug, PartialEq, Eq, Structural)]
pub enum Delivery {
    /// There was nothing in the building.
    Idle,
    /// Nothing has arrived.
    Waiting,
    /// The item that arrived was taken: for the target with this number, by this taker.
    Taken { target: usize, item: i16, taker: Taker },
    /// Nobody took it.
    Blocked,
}

/// The building after its step: a router holds its one item or nothing, and turns past
/// the direction that took it; every other building keeps the queue.
pub open spec fn settled_tile(
    tile: TileView,
    queue: Seq<(i16, u32)>,
    taken_in: Option<u8>,
) -> TileView {
    if router(tile.block) {
        let turned = match taken_in {
            Some(direction) => ((direction + 1) % 4) as u8,
            None => tile.rotation,
        };
        TileView {
            rotation: turned,
            stored_item: if queue.len() == 0 { -1i16 } else { queue[0].0 },
            stored_amount: if queue.len() == 0 { 0i32 } else { 1i32 },
            transport_progress: if queue.len() == 0 { ZERO } else { queue[0].1 },
            ..tile
        }
    } else {
        with_queue(tile, queue)
    }
}

/// The queue that stays: without the item that was taken, or with the item that nobody
/// took back at the front, just before the end.
pub open spec fn kept_queue(stepped: Seq<(i16, u32)>, d: Delivery) -> Seq<(i16, u32)> {
    let at = ready_from(stepped, 0);
    match d {
        Delivery::Idle => stepped,
        Delivery::Waiting => stepped,
        Delivery::Taken { .. } => stepped.remove(at),
        Delivery::Blocked => stepped.remove(at).insert(0, (stepped[at].0, BLOCKED_PROGRESS)),
    }
}

/// The queue of the building under `key` one step further.
pub open spec fn stepped_queue<S: Fn(u32, u32) -> u32, F: Fn(i32, u32) -> u32>(
    w: WorldView,
    key: i32,
    spread: S,
    advance: F,
) -> Seq<(i16, u32)> {
    stepped(queue_now(w.tiles[key], spread), advance, key)
}

/// Whether this can be the outcome of a step.
pub open spec fn may_step<A, B, G, S, F, O>(
    math: BeltMath<A, B, G>,
    spread: S,
    advance: F,
    outside: O,
    w: WorldView,
    key: i32,
    link: Option<i32>,
    incoming: Seq<i32>,
    d: Delivery,
) -> bool where
    A: Fn(u32) -> u32,
    B: Fn(u32, u32) -> u32,
    G: Fn(u32) -> u32,
    S: Fn(u32, u32) -> u32,
    F: Fn(i32, u32) -> u32,
    O: Fn(&DynamicWorld, i32, i16, i32) -> Option<Taker>,
 {
    let queue = stepped_queue(w, key, spread, advance);
    let at = ready_from(queue, 0);
    if !w.tiles.dom().contains(key) || queue.len() == 0 {
        d == Delivery::Idle
    } else if at >= queue.len() {
        d == Delivery::Waiting
    } else {
        let tile = w.tiles[key];
        let targets = targets_of(tile, link, incoming);
        match d {
            Delivery::Taken { target, item, taker } => item == queue[at].0 && may_deliver(
                math,
                outside,
                w,
                targets,
                item,
                tile.position,
                Some((target, taker)),
            ),
            Delivery::Blocked => may_deliver(
                math,
                outside,
                w,
                targets,
                queue[at].0,
                tile.position,
                None,
            ),
            _ => false,
        }
    }
}

/// The world after a step with this outcome.
pub open spec fn after_step<A, B, G, S, F>(
    math: BeltMath<A, B, G>,
    spread: S,
    advance: F,
    w: WorldView,
    key: i32,
    link: Option<i32>,
    incoming: Seq<i32>,
    d: Delivery,
) -> WorldView where
    A: Fn(u32) -> u32,
    B: Fn(u32, u32) -> u32,
    G: Fn(u32) -> u32,
    S: Fn(u32, u32) -> u32,
    F: Fn(i32, u32) -> u32,
 {
    let tile = w.tiles[key];
    let queue = stepped_queue(w, key, spread, advance);
    let kept = kept_queue(queue, d);
    let targets = targets_of(tile, link, incoming);
    match d {
        Delivery::Idle => w,
        Delivery::Taken { target, item, taker } => {
            let w1 = handed(math, spread, w, item, taker);
            w1.with_tile(key, settled_tile(w1.tiles[key], kept, targets[target as int].1))
        },
        _ => w.with_tile(key, settled_tile(tile, kept, None)),
    }
}

fn queue_of<S: Fn(u32, u32) -> u32>(tile: &DynamicTile, spread: &S) -> (r: Vec<(i16, u32)>)
    requires
        pure2(*spread),
    ensures
        r@ == queue_now(tile@, *spread),
{
    let mut r: Vec<(i16, u32)> = Vec::new();
    if is_router(tile.block) {
        if tile.stored_amount > 0 {
            r.push((tile.stored_item, tile.transport_progress));
            assert(r@ =~= seq![(tile.stored_item, tile.transport_progress)]);
        }
        return r;
    }
    if tile.conveyor_items.len() > 0 {
        return copy_queue(&tile.conveyor_items);
    }
    if tile.stored_amount > 0 && tile.stored_item >= 0 {
        let amount: u32 = if tile.stored_amount < LEGACY_LIMIT {
            tile.stored_amount as u32
        } else {
            LEGACY_LIMIT as u32
        };
        let mut i: u32 = 0;
        while i < amount
            invariant
                pure2(*spread),
                i <= amount <= LEGACY_LIMIT,
                !router(tile.block),
                tile.conveyor_items@.len() == 0,
                tile.stored_amount > 0,
                tile.stored_item >= 0,
                amount == queue_now(tile@, *spread).len(),
                r@ == queue_now(tile@, *spread).take(i as int),
            decreases amount - i,
        {
            let progress: u32 = spread(tile.transport_progress, i);
            assert(progress == value2(*spread, tile.transport_progress, i));
            r.push((tile.stored_item, progress));
            i += 1;
            assert(r@ =~= queue_now(tile@, *spread).take(i as int));
        }
        assert(r@ =~= queue_now(tile@, *spread));
    }
    r
}

fn step_queue<F: Fn(i32, u32) -> u32>(queue: &Vec<(i16, u32)>, advance: &F, key: i32) -> (r: Vec<
    (i16, u32),
>)
    requires
        pure_at(*advance),
    ensures
        r@ == stepped(queue@, *advance, key),
{
    let mut r: Vec<(i16, u32)> = Vec::new();
    let mut i: usize = 0;
    while i < queue.len()
        invariant
            pure_at(*advance),
            i <= queue@.len(),
            r@ == stepped(queue@, *advance, key).take(i as int),
        decreases queue@.len() - i,
    {
        let progress: u32 = advance(key, queue[i].1);
        assert(progress == value_at(*advance, key, queue@[i as int].1));
        r.push((queue[i].0, progress));
        i += 1;
        assert(r@ =~= stepped(queue@, *advance, key).take(i as int));
    }
    assert(r@ =~= stepped(queue@, *advance, key));
    r
}

fn ready_index(queue: &Vec<(i16, u32)>) -> (r: usize)
    ensures
        r == ready_from(queue@, 0),
        r <= queue@.len(),
{
    let mut i: usize = 0;
    while i < queue.len()
        invariant
            i <= queue@.len(),
            ready_from(queue@, 0) == ready_from(queue@, i as int),
        decreases queue@.len() - i,
    {
        if le(ONE, queue[i].1) {
            return i;
        }
        i += 1;
    }
    i
}

impl DynamicTile {
    fn settle(&mut self, queue: Vec<(i16, u32)>, taken_in: Option<u8>)
        ensures
            final(self)@ == settled_tile(old(self)@, queue@, taken_in),
    {
        if is_router(self.block) {
            match taken_in {
                Some(direction) => {
                    self.rotation = (direction % 4 + 1) % 4;
                },
                None => {},
            }
            if queue.len() == 0 {
                self.stored_item = -1;
                self.stored_amount = 0;
                self.transport_progress = ZERO;
            } else {
                self.stored_item = queue[0].0;
                self.stored_amount = 1;
                self.transport_progress = queue[0].1;
            }
        } else {
            self.set_queue(queue);
        }
    }
}

/// One step of a bridge, a router or another queued building: every item moves on, the
/// first one that arrived is offered to the targets, and the rest stays queued. An item
/// that nobody takes goes back to the front, so that nothing behind it overtakes it.
pub fn step_transport<A, B, G, S, F, O>(
    math: &BeltMath<A, B, G>,
    world: &mut DynamicWorld,
    spread: &S,
    advance: &F,
    outside: &O,
    key: i32,
    link: Option<i32>,
    incoming: &Vec<i32>,
) -> (d: Delivery) where
    A: Fn(u32) -> u32,
    B: Fn(u32, u32) -> u32,
    G: Fn(u32) -> u32,
    S: Fn(u32, u32) -> u32,
    F: Fn(i32, u32) -> u32,
    O: Fn(&DynamicWorld, i32, i16, i32) -> Option<Taker>,

    requires
        math.wf(),
        old(world).wf(),
        pure2(*spread),
        pure_at(*advance),
        answers_all(*outside),
    ensures
        final(world).wf(),
        final(world).tiles.spec_keys() == old(world).tiles.spec_keys(),
        may_step(*math, *spread, *advance, *outside, old(world)@, key, link, incoming@, d),
        final(world)@ == after_step(
            *math,
            *spread,
            *advance,
            old(world)@,
            key,
            link,
            incoming@,
            d,
        ),
{
    let tile = match world.tile(key) {
        Some(tile) => tile,
        None => return Delivery::Idle,
    };
    let now = queue_of(tile, spread);
    let mut queue = step_queue(&now, advance, key);
    if queue.len() == 0 {
        return Delivery::Idle;
    }
    let ghost whole = queue@;
    let position: i32 = tile.position;
    let at: usize = ready_index(&queue);
    let mut d = Delivery::Waiting;
    let mut taken_in: Option<u8> = None;
    if at < queue.len() {
        let targets = delivery_targets(tile, link, incoming);
        let item: i16 = queue[at].0;
        queue.remove(at);
        match deliver_item(math, world, spread, outside, &targets, item, position) {
            Some((target, taker)) => {
                d = Delivery::Taken { target, item, taker };
                taken_in = targets[target].1;
            },
            None => {
                d = Delivery::Blocked;
                queue.insert(0, (item, BLOCKED_PROGRESS));
            },
        }
    }
    assert(queue@ == kept_queue(whole, d));
    let mut after = match world.tile(key) {
        Some(tile) => tile.copy(),
        None => return d,
    };
    after.settle(queue, taken_in);
    world.put(key, after);
    d
}

// ---------------------------------------------------------------------------
// One pass over the map.

/// What one building did in a pass.
#[derive(Clone, Copy, Debug, PartialEq, Eq, Structural)]
pub enum Step {
    /// It moves no items.
    Skipped,
    Belt(Handoff),
    Queue(Delivery),
}

/// The bridges of a map: where each leads, and which lead to it.
pub struct Bridges {
    pub links: Registry<i32>,
    pub incoming: Registry<Vec<i32>>,
}

impl Bridges {
    pub open spec fn wf(&self) -> bool {
        self.links.wf() && self.incoming.wf()
    }

    pub open spec fn link(&self, key: i32) -> Option<i32> {
        if self.links@.dom().contains(key) { Some(self.links@[key]) } else { None }
    }

    pub open spec fn sources(&self, key: i32) -> Seq<i32> {
        if self.incoming@.dom().contains(key) { self.incoming@[key]@ } else { Seq::empty() }
    }
}

/// Whether the building under `key` moves items.
pub open spec fn moves_items(w: WorldView, moving: Seq<i16>, key: i32) -> bool {
    w.tiles.dom().contains(key) && moving.contains(w.tiles[key].block)
}

/// Whether this can be what the building under `key` did.
#[verifier::opaque]
pub open spec fn may_run<A, B, G, S, F, O>(
    math: BeltMath<A, B, G>,
    spread: S,
    advance: F,
    outside: O,
    moving: Seq<i16>,
    bridges: Bridges,
    w: WorldView,
    key: i32,
    step: Step,
) -> bool where
    A: Fn(u32) -> u32,
    B: Fn(u32, u32) -> u32,
    G: Fn(u32) -> u32,
    S: Fn(u32, u32) -> u32,
    F: Fn(i32, u32) -> u32,
    O: Fn(&DynamicWorld, i32, i16, i32) -> Option<Taker>,
 {
    if !moves_items(w, moving, key) {
        step == Step::Skipped
    } else if plain_conveyor(w.tiles[key].block) {
        step matches Step::Belt(h) && may_hand_on(math, advance, outside, w, key, h)
    } else {
        step matches Step::Queue(d) && may_step(
            math,
            spread,
            advance,
            outside,
            w,
            key,
            bridges.link(key),
            bridges.sources(key),
            d,
        )
    }
}

/// The world after what the building under `key` did.
#[verifier::opaque]
pub open spec fn after_run<A, B, G, S, F>(
    math: BeltMath<A, B, G>,
    spread: S,
    advance: F,
    bridges: Bridges,
    w: WorldView,
    key: i32,
    step: Step,
) -> WorldView where
    A: Fn(u32) -> u32,
    B: Fn(u32, u32) -> u32,
    G: Fn(u32) -> u32,
    S: Fn(u32, u32) -> u32,
    F: Fn(i32, u32) -> u32,
 {
    match step {
        Step::Skipped => w,
        Step::Belt(h) => belt_after(math, spread, advance, w, key, h),
        Step::Queue(d) => after_step(
            math,
            spread,
            advance,
            w,
            key,
            bridges.link(key),
            bridges.sources(key),
            d,
        ),
    }
}

/// The world after the buildings under `keys` have run, one after the other.
pub open spec fn after_pass<A, B, G, S, F>(
    math: BeltMath<A, B, G>,
    spread: S,
    advance: F,
    bridges: Bridges,
    w: WorldView,
    keys: Seq<i32>,
    steps: Seq<Step>,
) -> WorldView where
    A: Fn(u32) -> u32,
    B: Fn(u32, u32) -> u32,
    G: Fn(u32) -> u32,
    S: Fn(u32, u32) -> u32,
    F: Fn(i32, u32) -> u32,

    decreases keys.len(),
{
    if keys.len() == 0 {
        w
    } else {
        after_run(
            math,
            spread,
            advance,
            bridges,
            after_pass(math, spread, advance, bridges, w, keys.drop_last(), steps.drop_last()),
            keys.last(),
            steps.last(),
        )
    }
}

/// Whether a step worked on its building: it had items to move. Such a building counts as
/// changed, also where every item stands still.
pub open spec fn worked(step: Step) -> bool {
    match step {
        Step::Skipped => false,
        Step::Belt(h) => h != Handoff::Idle,
        Step::Queue(d) => d != Delivery::Idle,
    }
}

/// Whether a step worked on its building.
pub fn step_worked(step: &Step) -> (r: bool)
    ensures
        r == worked(*step),
{
    match step {
        Step::Skipped => false,
        Step::Belt(h) => !matches!(h, Handoff::Idle),
        Step::Queue(d) => !matches!(d, Delivery::Idle),
    }
}

/// Whether a pass changed anything: at least one building had items to move.
pub fn pass_changed(steps: &Vec<Step>) -> (r: bool)
    ensures
        r == exists|i: int| 0 <= i < steps@.len() && worked(#[trigger] steps@[i]),
{
    let mut i: usize = 0;
    while i < steps.len()
        invariant
            i <= steps@.len(),
            forall|j: int| 0 <= j < i ==> !worked(#[trigger] steps@[j]),
        decreases steps@.len() - i,
    {
        if step_worked(&steps[i]) {
            assert(worked(steps@[i as int]));
            return true;
        }
        i += 1;
    }
    false
}

/// A step works on a building exactly when the building moves items and holds some. Then a
/// belt is left with its moved items, without the head where somebody took it, and a queued
/// building with what stays of its queue; otherwise the map is left as it was.
pub proof fn law_step_works_where_items_are<A, B, G, S, F, O>(
    math: BeltMath<A, B, G>,
    spread: S,
    advance: F,
    outside: O,
    moving: Seq<i16>,
    bridges: Bridges,
    w: WorldView,
    key: i32,
    step: Step,
) where
    A: Fn(u32) -> u32,
    B: Fn(u32, u32) -> u32,
    G: Fn(u32) -> u32,
    S: Fn(u32, u32) -> u32,
    F: Fn(i32, u32) -> u32,
    O: Fn(&DynamicWorld, i32, i16, i32) -> Option<Taker>,

    requires
        may_run(math, spread, advance, outside, moving, bridges, w, key, step),
    ensures
        worked(step) <==> moves_items(w, moving, key) && if plain_conveyor(w.tiles[key].block) {
            math.normalized(w.tiles[key]).len() > 0
        } else {
            queue_now(w.tiles[key], spread).len() > 0
        },
        ({
            let after = after_run(math, spread, advance, bridges, w, key, step);
            match step {
                Step::Belt(h) if worked(step) => after.tiles[key].conveyor_items == if h
                    is Accepted {
                    moved_queue(math, advance, w, key).skip(1)
                } else {
                    moved_queue(math, advance, w, key)
                },
                Step::Queue(d) if worked(step) && !router(w.tiles[key].block) =>
                after.tiles[key].conveyor_items == kept_queue(
                    stepped_queue(w, key, spread, advance),
                    d,
                ),
                _ => !worked(step) ==> after == w,
            }
        }),
{
    reveal(may_run);
    reveal(after_run);
}

/// A pass that changed nothing left the map as it was.
pub proof fn law_unchanged_pass<A, B, G, S, F, O>(
    math: BeltMath<A, B, G>,
    spread: S,
    advance: F,
    outside: O,
    moving: Seq<i16>,
    bridges: Bridges,
    w: WorldView,
    keys: Seq<i32>,
    steps: Seq<Step>,
) where
    A: Fn(u32) -> u32,
    B: Fn(u32, u32) -> u32,
    G: Fn(u32) -> u32,
    S: Fn(u32, u32) -> u32,
    F: Fn(i32, u32) -> u32,
    O: Fn(&DynamicWorld, i32, i16, i32) -> Option<Taker>,

    requires
        steps.len() == keys.len(),
        forall|i: int| 0 <= i < steps.len() ==> !worked(#[trigger] steps[i]),
        forall|i: int|
            0 <= i < steps.len() ==> may_run(
                math,
                spread,
                advance,
                outside,
                moving,
                bridges,
                after_pass(math, spread, advance, bridges, w, keys.take(i), steps.take(i)),
                keys[i],
                #[trigger] steps[i],
            ),
    ensures
        after_pass(math, spread, advance, bridges, w, keys, steps) == w,
    decreases keys.len(),
{
    if keys.len() > 0 {
        let n = keys.len() - 1;
        let earlier_keys = keys.drop_last();
        let earlier = steps.drop_last();
        assert(keys.take(n) =~= earlier_keys);
        assert(steps.take(n) =~= earlier);
        assert forall|i: int| 0 <= i < earlier.len() implies may_run(
            math,
            spread,
            advance,
            outside,
            moving,
            bridges,
            after_pass(
                math,
                spread,
                advance,
                bridges,
                w,
                earlier_keys.take(i),
                earlier.take(i),
            ),
            earlier_keys[i],
            #[trigger] earlier[i],
        ) by {
            assert(earlier[i] == steps[i]);
            assert(earlier_keys.take(i) =~= keys.take(i));
            assert(earlier.take(i) =~= steps.take(i));
        }
        assert forall|i: int| 0 <= i < earlier.len() implies !worked(#[trigger] earlier[i]) by {
            assert(earlier[i] == steps[i]);
        }
        law_unchanged_pass(
            math,
            spread,
            advance,
            outside,
            moving,
            bridges,
            w,
            earlier_keys,
            earlier,
        );
        assert(!worked(steps[n]));
        law_step_works_where_items_are(
            math,
            spread,
            advance,
            outside,
            moving,
            bridges,
            w,
            keys[n],
            steps[n],
        );
    }
}

fn is_moving(moving: &Vec<i16>, block: i16) -> (r: bool)
    ensures
        r == moving@.contains(block),
{
    let mut i: usize = 0;
    while i < moving.len()
        invariant
            i <= moving@.len(),
            forall|j: int| 0 <= j < i ==> moving@[j] != block,
        decreases moving@.len() - i,
    {
        if moving[i] == block {
            assert(moving@[i as int] == block);
            return true;
        }
        i += 1;
    }
    false
}

fn run_building<A, B, G, S, F, O>(
    math: &BeltMath<A, B, G>,
    world: &mut DynamicWorld,
    spread: &S,
    advance: &F,
    outside: &O,
    moving: &Vec<i16>,
    bridges: &Bridges,
    key: i32,
) -> (step: Step) where
    A: Fn(u32) -> u32,
    B: Fn(u32, u32) -> u32,
    G: Fn(u32) -> u32,
    S: Fn(u32, u32) -> u32,
    F: Fn(i32, u32) -> u32,
    O: Fn(&DynamicWorld, i32, i16, i32) -> Option<Taker>,

    requires
        math.wf(),
        old(world).wf(),
        bridges.wf(),
        pure2(*spread),
        pure_at(*advance),
        answers_all(*outside),
    ensures
        final(world).wf(),
        final(world).tiles.spec_keys() == old(world).tiles.spec_keys(),
        may_run(
            *math,
            *spread,
            *advance,
            *outside,
            moving@,
            *bridges,
            old(world)@,
            key,
            step,
        ),
        final(world)@ == after_run(*math, *spread, *advance, *bridges, old(world)@, key, step),
{
    reveal(may_run);
    reveal(after_run);
    let block: i16 = match world.tile(key) {
        Some(tile) => tile.block,
        None => return Step::Skipped,
    };
    if !is_moving(moving, block) {
        return Step::Skipped;
    }
    if is_plain_conveyor(block) {
        return Step::Belt(step_conveyor(math, world, spread, advance, outside, key));
    }
    let link: Option<i32> = match bridges.links.get(key) {
        Some(target) => Some(*target),
        None => None,
    };
    let nothing: Vec<i32> = Vec::new();
    assert(nothing@ =~= Seq::empty());
    let incoming = match bridges.incoming.get(key) {
        Some(list) => list,
        None => &nothing,
    };
    Step::Queue(step_transport(math, world, spread, advance, outside, key, link, incoming))
}

/// Runs every building that moves items once, in the order of the registry: belts, bridges,
/// routers and whatever else `moving` lists. Says what each of them did: what a step gave
/// away stands with the one who took it, or has left the map for where the step says.
pub fn simulate_logistics<A, B, G, S, F, O>(
    math: &BeltMath<A, B, G>,
    world: &mut DynamicWorld,
    spread: &S,
    advance: &F,
    outside: &O,
    moving: &Vec<i16>,
    bridges: &Bridges,
) -> (steps: Vec<Step>) where
    A: Fn(u32) -> u32,
    B: Fn(u32, u32) -> u32,
    G: Fn(u32) -> u32,
    S: Fn(u32, u32) -> u32,
    F: Fn(i32, u32) -> u32,
    O: Fn(&DynamicWorld, i32, i16, i32) -> Option<Taker>,

    requires
        math.wf(),
        old(world).wf(),
        bridges.wf(),
        pure2(*spread),
        pure_at(*advance),
        answers_all(*outside),
    ensures
        final(world).wf(),
        final(world).tiles.spec_keys() == old(world).tiles.spec_keys(),
        ({
            let keys = old(world).tiles.spec_keys();
            &&& steps@.len() == keys.len()
            &&& final(world)@ == after_pass(
                *math,
                *spread,
                *advance,
                *bridges,
                old(world)@,
                keys,
                steps@,
            )
            &&& forall|i: int|
                0 <= i < steps@.len() ==> may_run(
                    *math,
                    *spread,
                    *advance,
                    *outside,
                    moving@,
                    *bridges,
                    after_pass(
                        *math,
                        *spread,
                        *advance,
                        *bridges,
                        old(world)@,
                        keys.take(i),
                        steps@.take(i),
                    ),
                    keys[i],
                    #[trigger] steps@[i],
                )
        }),
{
    let keys = world.tiles.keys();
    let ghost start = world@;
    let ghost order = world.tiles.spec_keys();
    let mut steps: Vec<Step> = Vec::new();
    let mut i: usize = 0;
    assert(keys@.take(0) =~= Seq::empty());
    assert(steps@ =~= Seq::empty());
    while i < keys.len()
        invariant
            math.wf(),
            world.wf(),
            bridges.wf(),
            pure2(*spread),
            pure_at(*advance),
            answers_all(*outside),
            start == old(world)@,
            order == old(world).tiles.spec_keys(),
            world.tiles.spec_keys() == order,
            keys@ == order,
            i <= keys@.len(),
            steps@.len() == i,
            world@ == after_pass(
                *math,
                *spread,
                *advance,
                *bridges,
                start,
                order.take(i as int),
                steps@,
            ),
            forall|j: int|
                0 <= j < steps@.len() ==> may_run(
                    *math,
                    *spread,
                    *advance,
                    *outside,
                    moving@,
                    *bridges,
                    after_pass(
                        *math,
                        *spread,
                        *advance,
                        *bridges,
                        start,
                        order.take(j),
                        steps@.take(j),
                    ),
                    order[j],
                    #[trigger] steps@[j],
                ),
        decreases keys@.len() - i,
    {
        let ghost so_far = steps@;
        let step = run_building(math, world, spread, advance, outside, moving, bridges, keys[i]);
        steps.push(step);
        proof {
            assert(order.take(i + 1).drop_last() =~= order.take(i as int));
            assert(steps@.drop_last() =~= so_far);
            assert forall|j: int| 0 <= j < steps@.len() implies may_run(
                *math,
                *spread,
                *advance,
                *outside,
                moving@,
                *bridges,
                after_pass(
                    *math,
                    *spread,
                    *advance,
                    *bridges,
                    start,
                    order.take(j),
                    steps@.take(j),
                ),
                order[j],
                #[trigger] steps@[j],
            ) by {
                if j < i {
                    assert(steps@.take(j) =~= so_far.take(j));
                    assert(steps@[j] == so_far[j]);
                } else {
                    assert(steps@.take(j) =~= so_far);
                }
            }
        }
        i += 1;
    }
    assert(order.take(i as int) =~= order);
    steps
}

// ---------------------------------------------------------------------------
// Laws of the queued buildings.

proof fn lemma_ready_in_range(queue: Seq<(i16, u32)>, i: int)
    requires
        0 <= i <= queue.len(),
    ensures
        i <= ready_from(queue, i) <= queue.len(),
        forall|j: int| i <= j < ready_from(queue, i) ==> !at_most(ONE, (#[trigger] queue[j]).1),
        ready_from(queue, i) < queue.len() ==> at_most(ONE, queue[ready_from(queue, i)].1),
    decreases queue.len() - i,
{
    if i < queue.len() && !at_most(ONE, queue[i].1) {
        lemma_ready_in_range(queue, i + 1);
    }
}

/// A step loses nothing: what nobody took is all still there, with the blocked item at the
/// front, and an item that was taken is the only one that is gone. Where the front itself
/// is blocked, the order stays as it was.
pub proof fn law_queue_keeps_items(stepped: Seq<(i16, u32)>, d: Delivery)
    requires
        d is Taken || d is Blocked ==> ready_from(stepped, 0) < stepped.len(),
    ensures
        ({
            let at = ready_from(stepped, 0);
            let kept = item_order(kept_queue(stepped, d));
            match d {
                Delivery::Taken { .. } => kept == item_order(stepped).remove(at),
                Delivery::Blocked => {
                    &&& kept[0] == stepped[at].0
                    &&& kept.skip(1) == item_order(stepped).remove(at)
                    &&& at == 0 ==> kept == item_order(stepped)
                },
                _ => kept == item_order(stepped),
            }
        }),
{
    lemma_ready_in_range(stepped, 0);
    let at = ready_from(stepped, 0);
    let kept = item_order(kept_queue(stepped, d));
    match d {
        Delivery::Taken { .. } => assert(kept =~= item_order(stepped).remove(at)),
        Delivery::Blocked => {
            assert(kept.skip(1) =~= item_order(stepped).remove(at));
            if at == 0 {
                assert(kept =~= item_order(stepped));
            }
        },
        _ => {},
    }
}

/// The targets around a large building lie outside of it, touch it, and are all
/// different.
pub proof fn law_ring_is_outside(occupied: Seq<i32>, n: nat)
    requires
        n <= 4 * occupied.len(),
    ensures
        forall|i: int|
            0 <= i < ring(occupied, n).len() ==> !occupied.contains(
                (#[trigger] ring(occupied, n)[i]).0,
            ),
        forall|i: int, j: int|
            0 <= i < j < ring(occupied, n).len() ==> (#[trigger] ring(occupied, n)[i]).0 != (
            #[trigger] ring(occupied, n)[j]).0,
        forall|i: int|
            0 <= i < ring(occupied, n).len() ==> exists|k: int, d: u8|
                0 <= k < occupied.len() && d < 4 && (#[trigger] ring(occupied, n)[i]).0
                    == #[trigger] neighbour(occupied[k], d),
    decreases n,
{
    if n > 0 {
        let before = ring(occupied, (n - 1) as nat);
        law_ring_is_outside(occupied, (n - 1) as nat);
        let direction = ((n - 1) % 4) as u8;
        let k = (n - 1) / 4;
        assert(0 <= k < occupied.len());
        let target = neighbour(occupied[k], direction);
        let all = ring(occupied, n);
        assert forall|i: int| 0 <= i < all.len() implies exists|k: int, d: u8|
            0 <= k < occupied.len() && d < 4 && (#[trigger] all[i]).0 == #[trigger] neighbour(
                occupied[k],
                d,
            ) by {
            if i < before.len() {
                assert(all[i] == before[i]);
            } else {
                assert(all[i].0 == neighbour(occupied[k], direction));
            }
        }
        assert forall|i: int, j: int| 0 <= i < j < all.len() implies (#[trigger] all[i]).0 != (
        #[trigger] all[j]).0 by {
            assert(all[i] == before[i]);
        }
    }
}

// ---------------------------------------------------------------------------
// Nothing is lost and nothing is doubled.

/// The items that are on their way in a building, in their order.
pub open spec fn underway<A, B, G, S>(math: BeltMath<A, B, G>, spread: S, tile: TileView) -> Seq<
    i16,
> where
    A: Fn(u32) -> u32,
    B: Fn(u32, u32) -> u32,
    G: Fn(u32) -> u32,
    S: Fn(u32, u32) -> u32,
 {
    item_order(
        if plain_conveyor(tile.block) { math.normalized(tile) } else { queue_now(tile, spread) },
    )
}

/// How many of an item a building has, on their way and in its inventory.
pub open spec fn carried<A, B, G, S>(
    math: BeltMath<A, B, G>,
    spread: S,
    tile: TileView,
    item: i16,
) -> int where
    A: Fn(u32) -> u32,
    B: Fn(u32, u32) -> u32,
    G: Fn(u32) -> u32,
    S: Fn(u32, u32) -> u32,
 {
    underway(math, spread, tile).to_multiset().count(item) + held(tile.inventory, item)
}

/// One, where the condition holds.
pub open spec fn one_if(b: bool) -> int {
    if b { 1 } else { 0 }
}

proof fn lemma_one_more_held(inventory: Seq<(i16, i32)>, item: i16, other: i16)
    requires
        held(inventory, item) < i32::MAX,
    ensures
        held(added(inventory, item, 1), other) == held(inventory, other) + one_if(other == item),
{
    let out = added(inventory, item, 1);
    lemma_slot(inventory, item);
    lemma_slot(inventory, other);
    lemma_slot(out, other);
    let at = slot_of(inventory, item);
    let k = slot_of(inventory, other);
    let m = slot_of(out, other);
    if k < inventory.len() {
        assert(out[k].0 == other);
        assert(m <= k);
        if m < k {
            assert(out[m].0 == inventory[m].0);
        }
    } else if other == item {
        assert(out[at].0 == item);
        if m < at {
            assert(out[m] == inventory[m]);
        }
    } else if m < out.len() {
        assert(out[m].0 == other);
        if m < inventory.len() {
            assert(inventory[m].0 == out[m].0);
        }
    }
}

/// A queue of at most three items is as long after healing, and in the same order.
proof fn lemma_healed_order<A, B, G>(math: BeltMath<A, B, G>, queue: Seq<(i16, u32)>) where
    A: Fn(u32) -> u32,
    B: Fn(u32, u32) -> u32,
    G: Fn(u32) -> u32,

    requires
        queue.len() <= 3,
    ensures
        item_order(math.healed(queue)) == item_order(queue),
{
    math.law_healing_keeps_order(queue);
    assert(item_order(math.healed(queue)) =~= item_order(queue));
}

/// The items of a belt that was given a queue of at most three.
proof fn lemma_belt_with_queue<A, B, G, S>(
    math: BeltMath<A, B, G>,
    spread: S,
    tile: TileView,
    queue: Seq<(i16, u32)>,
) where
    A: Fn(u32) -> u32,
    B: Fn(u32, u32) -> u32,
    G: Fn(u32) -> u32,
    S: Fn(u32, u32) -> u32,

    requires
        queue.len() <= 3,
        plain_conveyor(tile.block),
    ensures
        underway(math, spread, with_queue(tile, queue)) == item_order(queue),
{
    let after = with_queue(tile, queue);
    if queue.len() == 0 {
        assert(math.legacy_queue(after) =~= queue);
    }
    lemma_healed_order(math, queue);
}

/// What a belt shows to an item that asks to come in is what is on its way there.
proof fn lemma_asked_queue_is_underway<A, B, G, S>(
    math: BeltMath<A, B, G>,
    spread: S,
    tile: TileView,
) where
    A: Fn(u32) -> u32,
    B: Fn(u32, u32) -> u32,
    G: Fn(u32) -> u32,
    S: Fn(u32, u32) -> u32,

    requires
        plain_conveyor(tile.block),
        crate::conveyor::asked_queue(math, tile).len() < 3,
    ensures
        underway(math, spread, tile) == item_order(crate::conveyor::asked_queue(math, tile)),
{
    if tile.conveyor_items.len() > 0 {
        lemma_healed_order(math, tile.conveyor_items);
    }
}

/// A queue that let an item in has one more of it.
proof fn lemma_entered_has_one_more(
    queue: Seq<(i16, u32)>,
    item: i16,
    side: crate::conveyor::Entry,
)
    requires
        queue.len() < 3,
    ensures
        crate::conveyor::entered(queue, item, side).len() <= 3,
        item_order(crate::conveyor::entered(queue, item, side)).to_multiset() == item_order(
            queue,
        ).to_multiset().insert(item),
{
    broadcast use group_to_multiset_ensures;

    let out = crate::conveyor::entered(queue, item, side);
    crate::conveyor::law_entry_keeps_the_queue(queue, item, side);
    let at = choose|at: int|
        0 <= at <= queue.len() && (#[trigger] out[at]).0 == item && out.remove(at) == queue;
    assert(item_order(queue).insert(at, item) =~= item_order(out));
}

/// A belt lets an item in by one of its sides, and only while there is room.
proof fn lemma_entry_needs_room<A, B, G>(
    math: BeltMath<A, B, G>,
    w: WorldView,
    item: i16,
    key: i32,
    from: i32,
) -> (side: crate::conveyor::Entry) where
    A: Fn(u32) -> u32,
    B: Fn(u32, u32) -> u32,
    G: Fn(u32) -> u32,

    requires
        queue_after_entry(math, w, key, item, Some(from)) is Some,
    ensures
        plain_conveyor(w.tiles[key].block),
        crate::conveyor::asked_queue(math, w.tiles[key]).len() < 3,
        queue_after_entry(math, w, key, item, Some(from)) == Some(
            crate::conveyor::entered(
                crate::conveyor::asked_queue(math, w.tiles[key]),
                item,
                side,
            ),
        ),
{
    let tile = w.tiles[key];
    let queue = crate::conveyor::asked_queue(math, tile);
    crate::conveyor::entry(
        tile,
        queue,
        w.occupant(from),
        w.occupant(neighbour(tile.position, tile.rotation)),
    ).unwrap()
}

/// A belt that let an item in has one more of it.
proof fn lemma_belt_has_one_more<A, B, G, S>(
    math: BeltMath<A, B, G>,
    spread: S,
    w: WorldView,
    item: i16,
    key: i32,
    from: i32,
) where
    A: Fn(u32) -> u32,
    B: Fn(u32, u32) -> u32,
    G: Fn(u32) -> u32,
    S: Fn(u32, u32) -> u32,

    requires
        queue_after_entry(math, w, key, item, Some(from)) is Some,
    ensures
        underway(
            math,
            spread,
            with_queue(
                w.tiles[key],
                queue_after_entry(math, w, key, item, Some(from)).unwrap(),
            ),
        ).to_multiset() == underway(math, spread, w.tiles[key]).to_multiset().insert(item),
{
    let tile = w.tiles[key];
    let queue = crate::conveyor::asked_queue(math, tile);
    let side = lemma_entry_needs_room(math, w, item, key, from);
    lemma_asked_queue_is_underway(math, spread, tile);
    lemma_entered_has_one_more(queue, item, side);
    lemma_belt_with_queue(math, spread, tile, crate::conveyor::entered(queue, item, side));
}

/// An item that was handed over has arrived: the one who took it has one more of it, no
/// building has anything else more or less, and all are still there. What a core, a
/// building's own store or nobody took is on no building of the map.
pub proof fn law_handed_item_arrives<A, B, G, S>(
    math: BeltMath<A, B, G>,
    spread: S,
    w: WorldView,
    item: i16,
    taker: Taker,
    key: i32,
    other: i16,
) where
    A: Fn(u32) -> u32,
    B: Fn(u32, u32) -> u32,
    G: Fn(u32) -> u32,
    S: Fn(u32, u32) -> u32,

    requires
        takes(math, w, item, taker),
        w.tiles.dom().contains(key),
    ensures
        handed(math, spread, w, item, taker).tiles.dom() == w.tiles.dom(),
        taker_key(taker) matches Some(k) ==> w.tiles.dom().contains(k),
        carried(math, spread, handed(math, spread, w, item, taker).tiles[key], other) == carried(
            math,
            spread,
            w.tiles[key],
            other,
        ) + one_if(taker_key(taker) == Some(key) && other == item),
{
    broadcast use group_to_multiset_ensures;

    let after = handed(math, spread, w, item, taker);
    assert(after.tiles.dom() =~= w.tiles.dom());
    if taker_key(taker) == Some(key) {
        let tile = w.tiles[key];
        let now = after.tiles[key];
        match taker {
            Taker::Belt { from, .. } => {
                lemma_belt_has_one_more(math, spread, w, item, key, from);
            },
            Taker::Slot(_) => {
                assert(item_order(queue_now(tile, spread)) =~= Seq::<i16>::empty());
                assert(item_order(queue_now(now, spread)) =~= item_order(
                    queue_now(tile, spread),
                ).push(item));
            },
            Taker::Queue(_) => {
                let queue = queue_now(tile, spread);
                assert(queue_now(now, spread) == queue.push((item, ZERO)));
                assert(item_order(queue.push((item, ZERO))) =~= item_order(queue).push(item));
            },
            Taker::Stock(_) => {
                lemma_one_more_held(tile.inventory, item, other);
                if plain_conveyor(tile.block) {
                    assert(math.legacy_queue(now) =~= math.legacy_queue(tile));
                } else {
                    assert(queue_now(now, spread) =~= queue_now(tile, spread));
                }
            },
            _ => {},
        }
    }
}

/// The item that a step gave away, and who has it.
pub open spec fn given(step: Step) -> Option<(i16, Taker)> {
    match step {
        Step::Belt(Handoff::Accepted { item, taker }) => Some((item, taker)),
        Step::Queue(Delivery::Taken { item, taker, .. }) => Some((item, taker)),
        _ => None,
    }
}

/// Whether a step gave away one of this item.
pub open spec fn gave(step: Step, item: i16) -> bool {
    given(step) matches Some((i, _)) && i == item
}

/// Whether the building under `key` got one of this item in a step.
pub open spec fn got(step: Step, key: i32, item: i16) -> bool {
    given(step) matches Some((i, taker)) && i == item && taker_key(taker) == Some(key)
}

/// Whether one of this item left the map in a step.
pub open spec fn left_the_map(step: Step, item: i16) -> bool {
    given(step) matches Some((i, taker)) && i == item && taker_key(taker) is None
}

/// The order of a belt after its items have moved.
proof fn lemma_moved_queue_order<A, B, G, S, F>(
    math: BeltMath<A, B, G>,
    spread: S,
    advance: F,
    w: WorldView,
    key: i32,
) where
    A: Fn(u32) -> u32,
    B: Fn(u32, u32) -> u32,
    G: Fn(u32) -> u32,
    S: Fn(u32, u32) -> u32,
    F: Fn(i32, u32) -> u32,

    requires
        is_belt(w, key),
    ensures
        item_order(moved_queue(math, advance, w, key)) == underway(math, spread, w.tiles[key]),
        moved_queue(math, advance, w, key).len() == math.normalized(w.tiles[key]).len(),
        moved_queue(math, advance, w, key).len() <= 3,
{
    let tile = w.tiles[key];
    let before = math.normalized(tile);
    let next_max = math.next_max(tile, w.occupant(neighbour(tile.position, tile.rotation)));
    lemma_moved_keeps_items(math, advance, key, next_max, before, 0);
    assert(item_order(moved_queue(math, advance, w, key)).len() == item_order(before).len());
    if tile.conveyor_items.len() > 0 {
        math.law_healing_keeps_order(tile.conveyor_items);
    } else {
        math.law_healing_keeps_order(math.legacy_queue(tile));
    }
}

/// A belt that gave its head away has the rest.
proof fn lemma_belt_keeps_the_rest<A, B, G, S, F>(
    math: BeltMath<A, B, G>,
    spread: S,
    advance: F,
    w: WorldView,
    key: i32,
    h: Handoff,
) where
    A: Fn(u32) -> u32,
    B: Fn(u32, u32) -> u32,
    G: Fn(u32) -> u32,
    S: Fn(u32, u32) -> u32,
    F: Fn(i32, u32) -> u32,

    requires
        is_belt(w, key),
        h matches Handoff::Accepted { item, taker } ==> {
            &&& moved_queue(math, advance, w, key).len() > 0
            &&& item == moved_queue(math, advance, w, key)[0].0
            &&& taker_key(taker) != Some(key)
        },
    ensures
        ({
            let after = belt_after(math, spread, advance, w, key, h).tiles[key];
            let before = underway(math, spread, w.tiles[key]).to_multiset();
            &&& after.inventory == w.tiles[key].inventory
            &&& underway(math, spread, after).to_multiset() == match h {
                Handoff::Accepted { item, .. } => before.remove(item),
                _ => before,
            }
        }),
{
    broadcast use group_to_multiset_ensures;

    lemma_moved_queue_order(math, spread, advance, w, key);
    let tile = w.tiles[key];
    let queue = moved_queue(math, advance, w, key);
    match h {
        Handoff::Accepted { item, taker } => {
            let w1 = handed(math, spread, w, item, taker);
            assert(w1.tiles[key] == tile);
            lemma_belt_with_queue(math, spread, tile, queue.skip(1));
            assert(item_order(queue.skip(1)) =~= item_order(queue).remove(0));
            assert(item_order(queue)[0] == item);
        },
        _ => {
            if queue.len() > 0 {
                lemma_belt_with_queue(math, spread, tile, queue);
            }
        },
    }
}

/// A queued building that gave an item away has the rest.
proof fn lemma_queue_keeps_the_rest<A, B, G, S, F>(
    math: BeltMath<A, B, G>,
    spread: S,
    advance: F,
    w: WorldView,
    key: i32,
    link: Option<i32>,
    incoming: Seq<i32>,
    d: Delivery,
) where
    A: Fn(u32) -> u32,
    B: Fn(u32, u32) -> u32,
    G: Fn(u32) -> u32,
    S: Fn(u32, u32) -> u32,
    F: Fn(i32, u32) -> u32,

    requires
        w.tiles.dom().contains(key),
        !plain_conveyor(w.tiles[key].block),
        d !is Idle ==> stepped_queue(w, key, spread, advance).len() > 0,
        d is Taken || d is Blocked ==> ready_from(stepped_queue(w, key, spread, advance), 0)
            < stepped_queue(w, key, spread, advance).len(),
        d matches Delivery::Taken { item, taker, .. } ==> {
            let queue = stepped_queue(w, key, spread, advance);
            &&& item == queue[ready_from(queue, 0)].0
            &&& taker_key(taker) != Some(key)
        },
    ensures
        ({
            let after = after_step(math, spread, advance, w, key, link, incoming, d).tiles[key];
            let before = underway(math, spread, w.tiles[key]).to_multiset();
            &&& after.inventory == w.tiles[key].inventory
            &&& underway(math, spread, after).to_multiset() == match d {
                Delivery::Taken { item, .. } => before.remove(item),
                _ => before,
            }
        }),
{
    broadcast use group_to_multiset_ensures;

    let tile = w.tiles[key];
    let queue = stepped_queue(w, key, spread, advance);
    let order = item_order(queue);
    assert(order =~= underway(math, spread, tile));
    if d !is Idle {
        lemma_ready_in_range(queue, 0);
        let at = ready_from(queue, 0);
        let kept = kept_queue(queue, d);
        law_queue_keeps_items(queue, d);
        if let Delivery::Taken { item, taker, .. } = d {
            assert(handed(math, spread, w, item, taker).tiles[key] == tile);
        }
        let after = after_step(math, spread, advance, w, key, link, incoming, d).tiles[key];
        assert(after.block == tile.block);
        assert(router(tile.block) ==> queue.len() == 1);
        assert(kept.len() <= queue.len());
        assert(queue_now(after, spread) =~= kept);
        match d {
            Delivery::Taken { item, .. } => {
                assert(order[at] == item);
            },
            Delivery::Blocked => {
                let blocked = queue[at].0;
                assert(order[at] == blocked);
                assert(item_order(kept) =~= order.remove(at).insert(0, blocked));
                assert(order.to_multiset().remove(blocked).insert(blocked)
                    =~= order.to_multiset());
            },
            _ => {},
        }
    }
}

/// The building that ran has what it did not give away.
proof fn lemma_source_keeps_the_rest<A, B, G, S, F, O>(
    math: BeltMath<A, B, G>,
    spread: S,
    advance: F,
    outside: O,
    moving: Seq<i16>,
    bridges: Bridges,
    w: WorldView,
    key: i32,
    step: Step,
    item: i16,
) where
    A: Fn(u32) -> u32,
    B: Fn(u32, u32) -> u32,
    G: Fn(u32) -> u32,
    S: Fn(u32, u32) -> u32,
    F: Fn(i32, u32) -> u32,
    O: Fn(&DynamicWorld, i32, i16, i32) -> Option<Taker>,

    requires
        may_run(math, spread, advance, outside, moving, bridges, w, key, step),
        w.tiles.dom().contains(key),
        given(step) matches Some((_, taker)) ==> taker_key(taker) != Some(key),
    ensures
        carried(
            math,
            spread,
            after_run(math, spread, advance, bridges, w, key, step).tiles[key],
            item,
        ) == carried(math, spread, w.tiles[key], item) - one_if(gave(step, item)),
{
    broadcast use group_to_multiset_ensures;

    reveal(may_run);
    reveal(after_run);
    let order = underway(math, spread, w.tiles[key]);
    match step {
        Step::Skipped => {},
        Step::Belt(h) => {
            lemma_moved_queue_order(math, spread, advance, w, key);
            lemma_belt_keeps_the_rest(math, spread, advance, w, key, h);
            if let Handoff::Accepted { item: head, .. } = h {
                assert(order[0] == head);
                assert(order.contains(head));
            }
        },
        Step::Queue(d) => {
            let queue = stepped_queue(w, key, spread, advance);
            lemma_ready_in_range(queue, 0);
            lemma_queue_keeps_the_rest(
                math,
                spread,
                advance,
                w,
                key,
                bridges.link(key),
                bridges.sources(key),
                d,
            );
            if let Delivery::Taken { item: gone, .. } = d {
                assert(order[ready_from(queue, 0)] == gone);
                assert(order.contains(gone));
            }
        },
    }
}

/// Who took an item had room for it.
proof fn lemma_given_is_taken<A, B, G, S, F, O>(
    math: BeltMath<A, B, G>,
    spread: S,
    advance: F,
    outside: O,
    moving: Seq<i16>,
    bridges: Bridges,
    w: WorldView,
    key: i32,
    step: Step,
) where
    A: Fn(u32) -> u32,
    B: Fn(u32, u32) -> u32,
    G: Fn(u32) -> u32,
    S: Fn(u32, u32) -> u32,
    F: Fn(i32, u32) -> u32,
    O: Fn(&DynamicWorld, i32, i16, i32) -> Option<Taker>,

    requires
        may_run(math, spread, advance, outside, moving, bridges, w, key, step),
        w.tiles.dom().contains(key),
    ensures
        given(step) matches Some((item, taker)) ==> takes(math, w, item, taker),
        after_run(math, spread, advance, bridges, w, key, step).tiles.dom() == w.tiles.dom(),
        forall|k: i32|
            k != key && w.tiles.dom().contains(k) ==> #[trigger] after_run(
                math,
                spread,
                advance,
                bridges,
                w,
                key,
                step,
            ).tiles[k] == match given(step) {
                Some((item, taker)) => handed(math, spread, w, item, taker).tiles[k],
                None => w.tiles[k],
            },
{
    reveal(may_run);
    reveal(after_run);
    let after = after_run(math, spread, advance, bridges, w, key, step);
    match given(step) {
        Some((item, taker)) => {
            assert(takes(math, w, item, taker));
            law_handed_item_arrives(math, spread, w, item, taker, key, item);
            assert(after.tiles.dom() =~= w.tiles.dom());
        },
        None => {
            assert(after.tiles.dom() =~= w.tiles.dom());
        },
    }
}

/// One step moves at most one item: the building that ran has one less of it, the building
/// that took it has one more, and no building has anything else more or less.
pub proof fn law_step_moves_one_item<A, B, G, S, F, O>(
    math: BeltMath<A, B, G>,
    spread: S,
    advance: F,
    outside: O,
    moving: Seq<i16>,
    bridges: Bridges,
    w: WorldView,
    key: i32,
    step: Step,
    other: i32,
    item: i16,
) where
    A: Fn(u32) -> u32,
    B: Fn(u32, u32) -> u32,
    G: Fn(u32) -> u32,
    S: Fn(u32, u32) -> u32,
    F: Fn(i32, u32) -> u32,
    O: Fn(&DynamicWorld, i32, i16, i32) -> Option<Taker>,

    requires
        may_run(math, spread, advance, outside, moving, bridges, w, key, step),
        w.tiles.dom().contains(key),
        w.tiles.dom().contains(other),
        given(step) matches Some((_, taker)) ==> taker_key(taker) != Some(key),
    ensures
        after_run(math, spread, advance, bridges, w, key, step).tiles.dom() == w.tiles.dom(),
        carried(
            math,
            spread,
            after_run(math, spread, advance, bridges, w, key, step).tiles[other],
            item,
        ) == carried(math, spread, w.tiles[other], item) - one_if(
            other == key && gave(step, item),
        ) + one_if(got(step, other, item)),
{
    lemma_given_is_taken(math, spread, advance, outside, moving, bridges, w, key, step);
    if other == key {
        lemma_source_keeps_the_rest(
            math,
            spread,
            advance,
            outside,
            moving,
            bridges,
            w,
            key,
            step,
            item,
        );
    } else if let Some((i, taker)) = given(step) {
        law_handed_item_arrives(math, spread, w, i, taker, other, item);
    }
}

/// How many of an item the buildings under `keys` have together.
pub open spec fn total_carried<A, B, G, S>(
    math: BeltMath<A, B, G>,
    spread: S,
    w: WorldView,
    keys: Seq<i32>,
    item: i16,
) -> int where
    A: Fn(u32) -> u32,
    B: Fn(u32, u32) -> u32,
    G: Fn(u32) -> u32,
    S: Fn(u32, u32) -> u32,

    decreases keys.len(),
{
    if keys.len() == 0 {
        0
    } else {
        total_carried(math, spread, w, keys.drop_last(), item) + carried(
            math,
            spread,
            w.tiles[keys.last()],
            item,
        )
    }
}

/// How many of an item left the map in these steps.
pub open spec fn total_left(steps: Seq<Step>, item: i16) -> int
    decreases steps.len(),
{
    if steps.len() == 0 {
        0
    } else {
        total_left(steps.drop_last(), item) + one_if(left_the_map(steps.last(), item))
    }
}

proof fn lemma_step_total<A, B, G, S, F, O>(
    math: BeltMath<A, B, G>,
    spread: S,
    advance: F,
    outside: O,
    moving: Seq<i16>,
    bridges: Bridges,
    w: WorldView,
    key: i32,
    step: Step,
    keys: Seq<i32>,
    item: i16,
) where
    A: Fn(u32) -> u32,
    B: Fn(u32, u32) -> u32,
    G: Fn(u32) -> u32,
    S: Fn(u32, u32) -> u32,
    F: Fn(i32, u32) -> u32,
    O: Fn(&DynamicWorld, i32, i16, i32) -> Option<Taker>,

    requires
        may_run(math, spread, advance, outside, moving, bridges, w, key, step),
        w.tiles.dom().contains(key),
        keys.no_duplicates(),
        forall|k: i32| keys.contains(k) ==> #[trigger] w.tiles.dom().contains(k),
        given(step) matches Some((_, taker)) ==> taker_key(taker) != Some(key),
    ensures
        total_carried(
            math,
            spread,
            after_run(math, spread, advance, bridges, w, key, step),
            keys,
            item,
        ) == total_carried(math, spread, w, keys, item) - one_if(
            keys.contains(key) && gave(step, item),
        ) + one_if(
            given(step) matches Some((i, taker)) && i == item && (taker_key(taker) matches Some(k)
                && keys.contains(k)),
        ),
    decreases keys.len(),
{
    if keys.len() > 0 {
        let front = keys.drop_last();
        let last = keys.last();
        assert forall|k: i32| front.contains(k) implies #[trigger] w.tiles.dom().contains(k) by {
            let i = choose|i: int| 0 <= i < front.len() && front[i] == k;
            assert(keys[i] == k);
        }
        assert(keys.contains(last));
        assert(!front.contains(last)) by {
            if front.contains(last) {
                let i = choose|i: int| 0 <= i < front.len() && front[i] == last;
                assert(keys[i] == keys[keys.len() - 1]);
            }
        }
        assert forall|k: i32| keys.contains(k) == (front.contains(k) || k == last) by {
            if keys.contains(k) && k != last {
                let i = choose|i: int| 0 <= i < keys.len() && keys[i] == k;
                assert(front[i] == k);
            }
            if front.contains(k) {
                let i = choose|i: int| 0 <= i < front.len() && front[i] == k;
                assert(keys[i] == k);
            }
        }
        lemma_step_total(
            math,
            spread,
            advance,
            outside,
            moving,
            bridges,
            w,
            key,
            step,
            front,
            item,
        );
        law_step_moves_one_item(
            math,
            spread,
            advance,
            outside,
            moving,
            bridges,
            w,
            key,
            step,
            last,
            item,
        );
    }
}

/// A pass over the whole map loses nothing and doubles nothing: what all buildings have
/// together, and what left the map in its steps, is what they had before. No building may
/// hand an item to itself.
pub proof fn law_pass_keeps_every_item<A, B, G, S, F, O>(
    math: BeltMath<A, B, G>,
    spread: S,
    advance: F,
    outside: O,
    moving: Seq<i16>,
    bridges: Bridges,
    w: WorldView,
    keys: Seq<i32>,
    steps: Seq<Step>,
    item: i16,
    n: int,
) where
    A: Fn(u32) -> u32,
    B: Fn(u32, u32) -> u32,
    G: Fn(u32) -> u32,
    S: Fn(u32, u32) -> u32,
    F: Fn(i32, u32) -> u32,
    O: Fn(&DynamicWorld, i32, i16, i32) -> Option<Taker>,

    requires
        keys.no_duplicates(),
        forall|k: i32| keys.contains(k) <==> #[trigger] w.tiles.dom().contains(k),
        steps.len() == keys.len(),
        0 <= n <= keys.len(),
        forall|i: int|
            0 <= i < steps.len() ==> may_run(
                math,
                spread,
                advance,
                outside,
                moving,
                bridges,
                after_pass(math, spread, advance, bridges, w, keys.take(i), steps.take(i)),
                keys[i],
                #[trigger] steps[i],
            ),
        forall|i: int|
            0 <= i < steps.len() ==> (given(#[trigger] steps[i]) matches Some((_, taker))
                ==> taker_key(taker) != Some(keys[i])),
    ensures
        ({
            let after = after_pass(math, spread, advance, bridges, w, keys.take(n), steps.take(n));
            &&& after.tiles.dom() == w.tiles.dom()
            &&& total_carried(math, spread, after, keys, item) + total_left(steps.take(n), item)
                == total_carried(math, spread, w, keys, item)
        }),
    decreases n,
{
    if n > 0 {
        law_pass_keeps_every_item(
            math,
            spread,
            advance,
            outside,
            moving,
            bridges,
            w,
            keys,
            steps,
            item,
            n - 1,
        );
        assert(keys.take(n).drop_last() =~= keys.take(n - 1));
        assert(steps.take(n).drop_last() =~= steps.take(n - 1));
        let before = after_pass(
            math,
            spread,
            advance,
            bridges,
            w,
            keys.take(n - 1),
            steps.take(n - 1),
        );
        let key = keys[n - 1];
        let step = steps[n - 1];
        assert(keys.contains(key));
        lemma_given_is_taken(math, spread, advance, outside, moving, bridges, before, key, step);
        if let Some((i, taker)) = given(step) {
            law_handed_item_arrives(math, spread, before, i, taker, key, item);
        }
        lemma_step_total(
            math,
            spread,
            advance,
            outside,
            moving,
            bridges,
            before,
            key,
            step,
            keys,
            item,
        );
    } else {
        assert(keys.take(0) =~= Seq::empty());
        assert(steps.take(0) =~= Seq::empty());
    }
}

} // verus!
