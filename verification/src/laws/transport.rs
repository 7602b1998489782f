//! How far items go in a step, to whom they are offered, and what is left behind.

use crate::conveyor::{
    neighbour, queue_after_entry, value2, BeltMath, DynamicWorld, TileView, WorldView,
};
use crate::float_bits::{at_most, below, larger};
use crate::laws::belts::one_of_the_belts;
use crate::laws::workshop::lemma_filter_members;
use crate::logistics::{
    after_pass, after_run, bridge_span, handed, kept_queue, law_ring_is_outside, may_deliver,
    may_hand_on, may_step, moved, moved_queue, moving_speed, queue_now, ready_from, ring,
    settled_tile, stepped, stepped_queue, takes, targets_of, turned_neighbours, value_at, Bridges,
    Delivery, Handoff, Step, Taker,
};
use crate::production::held;
use vstd::prelude::*;

verus! {

// ---------------------------------------------------------------------------
// Blocks.

/// The larger bridge spans three times as much as the smaller. A bridge that leads nowhere
/// hands out an item every five ticks; everything else goes at its own speed.
pub proof fn law_bridges(block: i16, speed: u32, linked: bool)
    ensures
        bridge_span(263) == 3 * bridge_span(262),
        bridge_span(262) == 4,
        (block == 262 || block == 263) && !linked ==> moving_speed(block, speed, linked)
            == 0x3E4C_CCCD,
        !(block == 262 || block == 263) || linked ==> moving_speed(block, speed, linked) == speed,
{
}

// ---------------------------------------------------------------------------
// Moving along a belt.

proof fn lemma_moved<A, B, G, F>(
    math: BeltMath<A, B, G>,
    advance: F,
    key: i32,
    next_max: u32,
    s: Seq<(i16, u32)>,
    i: int,
) where
    A: Fn(u32) -> u32,
    B: Fn(u32, u32) -> u32,
    G: Fn(u32) -> u32,
    F: Fn(i32, u32) -> u32,

    requires
        0 <= i,
    ensures
        ({
            let q = moved(math, advance, key, next_max, s, i);
            &&& q.len() == s.len()
            &&& forall|k: int| 0 <= k < i && k < s.len() ==> #[trigger] q[k] == s[k]
            &&& forall|k: int|
                i <= k < s.len() ==> (#[trigger] q[k]).0 == s[k].0 && q[k].1
                    == crate::float_bits::clamped(
                    crate::float_bits::smaller(
                        value_at(advance, key, s[k].1),
                        if k == 0 { next_max } else { larger(math.spec_back(q[k - 1].1, 1), 0) },
                    ),
                    0,
                    0x3F80_0000,
                )
        }),
    decreases s.len() - i,
{
    if i < s.len() {
        let limit = if i == 0 { next_max } else { larger(math.spec_back(s[i - 1].1, 1), 0) };
        let progress = crate::float_bits::clamped(
            crate::float_bits::smaller(value_at(advance, key, s[i].1), limit),
            0,
            0x3F80_0000,
        );
        let t = s.update(i, (s[i].0, progress));
        lemma_moved(math, advance, key, next_max, t, i + 1);
        let q = moved(math, advance, key, next_max, s, i);
        assert(q == moved(math, advance, key, next_max, t, i + 1));
        assert(q[i] == t[i]);
        if i > 0 {
            assert(q[i - 1] == t[i - 1]);
        }
        assert forall|k: int| 0 <= k < i implies #[trigger] q[k] == s[k] by {
            assert(q[k] == t[k]);
        }
    }
}

/// Every item of a belt goes the whole step where nothing is in its way, and otherwise as
/// far as it may: the head as far as the next building lets it, every other item up to the
/// room of the item ahead of it, where that stands now; none goes beyond the end of the belt.
pub proof fn law_items_go_as_far_as_they_may<A, B, G, F>(
    math: BeltMath<A, B, G>,
    advance: F,
    key: i32,
    next_max: u32,
    s: Seq<(i16, u32)>,
    i: int,
) where
    A: Fn(u32) -> u32,
    B: Fn(u32, u32) -> u32,
    G: Fn(u32) -> u32,
    F: Fn(i32, u32) -> u32,

    requires
        0 <= i < s.len(),
    ensures
        ({
            let q = moved(math, advance, key, next_max, s, 0);
            let step = value_at(advance, key, s[i].1);
            let limit = if i == 0 { next_max } else { larger(math.spec_back(q[i - 1].1, 1), 0) };
            &&& q.len() == s.len()
            &&& q[i].0 == s[i].0
            &&& at_most(0, step) && at_most(step, limit) && at_most(step, 0x3F80_0000) ==> q[i].1
                == step
            &&& at_most(0, limit) && below(limit, step) && at_most(limit, 0x3F80_0000) ==> q[i].1
                == limit
            &&& below(0x3F80_0000, step) && below(0x3F80_0000, limit) ==> q[i].1 == 0x3F80_0000
        }),
{
    lemma_moved(math, advance, key, next_max, s, 0);
}

/// A belt in the world moves the items that it holds, the head limited by the building in
/// front of it.
pub proof fn law_belt_moves_what_it_holds<A, B, G, F>(
    math: BeltMath<A, B, G>,
    advance: F,
    w: WorldView,
    key: i32,
    i: int,
) where
    A: Fn(u32) -> u32,
    B: Fn(u32, u32) -> u32,
    G: Fn(u32) -> u32,
    F: Fn(i32, u32) -> u32,

    requires
        0 <= i < math.normalized(w.tiles[key]).len(),
    ensures
        ({
            let tile = w.tiles[key];
            let s = math.normalized(tile);
            let q = moved_queue(math, advance, w, key);
            let step = value_at(advance, key, s[i].1);
            let limit = if i == 0 {
                math.next_max(tile, w.occupant(neighbour(tile.position, tile.rotation)))
            } else {
                larger(math.spec_back(q[i - 1].1, 1), 0)
            };
            &&& q.len() == s.len()
            &&& q[i].0 == s[i].0
            &&& at_most(0, step) && at_most(step, limit) && at_most(step, 0x3F80_0000) ==> q[i].1
                == step
            &&& at_most(0, limit) && below(limit, step) && at_most(limit, 0x3F80_0000) ==> q[i].1
                == limit
        }),
{
    let tile = w.tiles[key];
    let next_max = math.next_max(tile, w.occupant(neighbour(tile.position, tile.rotation)));
    law_items_go_as_far_as_they_may(math, advance, key, next_max, math.normalized(tile), i);
}

/// A belt does nothing when it is empty, waits while its head is under way, and offers the
/// head when that has arrived at the end: to the neighbour in its own direction, and to a
/// belt there by the rules of that belt.
pub proof fn law_head_is_offered_when_it_arrives<A, B, G, F, O>(
    math: BeltMath<A, B, G>,
    advance: F,
    outside: O,
    w: WorldView,
    key: i32,
    h: Handoff,
) where
    A: Fn(u32) -> u32,
    B: Fn(u32, u32) -> u32,
    G: Fn(u32) -> u32,
    F: Fn(i32, u32) -> u32,
    O: Fn(&DynamicWorld, i32, i16, i32) -> Option<Taker>,

    requires
        may_hand_on(math, advance, outside, w, key, h),
    ensures
        ({
            let tile = w.tiles[key];
            let belt = w.tiles.dom().contains(key) && one_of_the_belts(tile.block);
            let queue = moved_queue(math, advance, w, key);
            let there = at_most(0x3F80_0000, queue[0].1);
            let target = neighbour(tile.position, tile.rotation);
            let onto_belt = w.tiles.dom().contains(target) && one_of_the_belts(
                w.tiles[target].block,
            );
            &&& h is Idle <==> !belt || math.normalized(tile).len() == 0
            &&& h !is Idle ==> queue.len() > 0
            &&& h !is Idle ==> (h is Waiting <==> !there)
            &&& (h matches Handoff::Accepted { item, taker } ==> item == queue[0].0)
            &&& h !is Idle && there && onto_belt && queue_after_entry(
                math,
                w,
                target,
                queue[0].0,
                Some(tile.position),
            ) is Some ==> h == (Handoff::Accepted {
                item: queue[0].0,
                taker: Taker::Belt { key: target, from: tile.position },
            })
            &&& h !is Idle && there && onto_belt && queue_after_entry(
                math,
                w,
                target,
                queue[0].0,
                Some(tile.position),
            ) is None ==> h is Refused
        }),
{
    let tile = w.tiles[key];
    let next_max = math.next_max(tile, w.occupant(neighbour(tile.position, tile.rotation)));
    lemma_moved(math, advance, key, next_max, math.normalized(tile), 0);
}

// ---------------------------------------------------------------------------
// Handing over.

/// A router takes an item when it is one and holds nothing, an inventory when its count has
/// room, a queue when it is that of another building than a belt or a router, and a belt by
/// its own rules. A core, a store of its own kind and the void take everything.
pub proof fn law_who_has_room<A, B, G>(
    math: BeltMath<A, B, G>,
    w: WorldView,
    item: i16,
    key: i32,
    from: i32,
    team: u8,
) where A: Fn(u32) -> u32, B: Fn(u32, u32) -> u32, G: Fn(u32) -> u32
    ensures
        ({
            let there = w.tiles.dom().contains(key);
            let block = w.tiles[key].block;
            &&& takes(math, w, item, Taker::Slot(key)) <==> there && (block == 266 || block == 267)
                && w.tiles[key].stored_amount <= 0
            &&& takes(math, w, item, Taker::Stock(key)) <==> there && held(
                w.tiles[key].inventory,
                item,
            ) < 0x7FFF_FFFF
            &&& takes(math, w, item, Taker::Queue(key)) <==> there && block != 266 && block != 267
                && !one_of_the_belts(block)
            &&& takes(math, w, item, Taker::Belt { key, from }) <==> queue_after_entry(
                math,
                w,
                key,
                item,
                Some(from),
            ) is Some
            &&& takes(math, w, item, Taker::Core(team))
            &&& takes(math, w, item, Taker::Store(key))
            &&& takes(math, w, item, Taker::Void)
        }),
{
}

/// What is handed over begins its way: a router holds just that item, at its start, and a
/// queue has it at its rear, at its start, with all others where they were. Nothing else of
/// the building changes, and no other building.
pub proof fn law_handed_item_begins_its_way<A, B, G, S>(
    math: BeltMath<A, B, G>,
    spread: S,
    w: WorldView,
    item: i16,
    key: i32,
    other: i32,
) where
    A: Fn(u32) -> u32,
    B: Fn(u32, u32) -> u32,
    G: Fn(u32) -> u32,
    S: Fn(u32, u32) -> u32,

    requires
        w.tiles.dom().contains(key),
    ensures
        ({
            let after = handed(math, spread, w, item, Taker::Slot(key));
            let t = after.tiles[key];
            &&& t.stored_item == item && t.stored_amount == 1 && t.transport_progress == 0
            &&& t.rotation == w.tiles[key].rotation && t.block == w.tiles[key].block && t.team
                == w.tiles[key].team && t.inventory == w.tiles[key].inventory
            &&& other != key ==> after.tiles[other] == w.tiles[other]
            &&& after.footprint == w.footprint
        }),
        ({
            let after = handed(math, spread, w, item, Taker::Queue(key));
            let t = after.tiles[key];
            let before = queue_now(w.tiles[key], spread);
            &&& t.conveyor_items == before.push((item, 0u32))
            &&& t.rotation == w.tiles[key].rotation && t.block == w.tiles[key].block && t.team
                == w.tiles[key].team && t.inventory == w.tiles[key].inventory
            &&& other != key ==> after.tiles[other] == w.tiles[other]
            &&& after.footprint == w.footprint
        }),
        ({
            let after = handed(math, spread, w, item, Taker::Stock(key));
            let t = after.tiles[key];
            &&& t == TileView { inventory: t.inventory, ..w.tiles[key] }
            &&& other != key ==> after.tiles[other] == w.tiles[other]
            &&& after.footprint == w.footprint
        }),
        handed(math, spread, w, item, Taker::Void) == w,
        handed(math, spread, w, item, Taker::Store(key)) == w,
        forall|team: u8| #[trigger] handed(math, spread, w, item, Taker::Core(team)) == w,
{
}

// ---------------------------------------------------------------------------
// Targets.

/// A bridge with a link has that alone. Everything but bridges and routers has its neighbour
/// straight ahead alone.
pub proof fn law_straight_targets(tile: TileView, link: i32, incoming: Seq<i32>)
    ensures
        tile.block == 262 || tile.block == 263 ==> targets_of(tile, Some(link), incoming) == seq![
            (link, None::<u8>),
        ],
        tile.block != 262 && tile.block != 263 && tile.block != 266 && tile.block != 267 ==> {
            &&& targets_of(tile, Some(link), incoming) == seq![
                (neighbour(tile.position, tile.rotation), Some(tile.rotation)),
            ]
            &&& targets_of(tile, None, incoming) == targets_of(tile, Some(link), incoming)
        },
{
}

/// The end of a bridge gives to its neighbours in all four directions, but to none that
/// feeds it, and to nobody else.
pub proof fn law_bridge_end_gives_all_around(
    tile: TileView,
    incoming: Seq<i32>,
    direction: u8,
    target: (i32, Option<u8>),
)
    requires
        tile.block == 262 || tile.block == 263,
        direction < 4,
    ensures
        ({
            let targets = targets_of(tile, None, incoming);
            let there = neighbour(tile.position, direction);
            &&& targets.contains((there, Some(direction))) <==> !incoming.contains(there)
            &&& targets.contains(target) ==> target.1 is Some && target.1.unwrap() < 4 && target.0
                == neighbour(tile.position, target.1.unwrap()) && !incoming.contains(target.0)
            &&& targets.no_duplicates()
        }),
{
    let around = turned_neighbours(tile.position, 0);
    let free = |t: (i32, Option<u8>)| !incoming.contains(t.0);
    lemma_filter_members(around, free);
    let targets = targets_of(tile, None, incoming);
    assert(targets == around.filter(free));
    let there = (neighbour(tile.position, direction), Some(direction));
    assert(around[direction as int] == there);
    assert(around.contains(there));
    assert(around.filter(free).contains(there) <==> around.contains(there) && free(there));
    assert(around.filter(free).contains(target) <==> around.contains(target) && free(target));
    if around.contains(target) {
        let i = choose|i: int| 0 <= i < around.len() && around[i] == target;
        assert(around[i] == (neighbour(tile.position, i as u8), Some(i as u8)));
    }
    assert(around.no_duplicates()) by {
        assert forall|i: int, j: int| 0 <= i < around.len() && 0 <= j < around.len() && i
            != j implies around[i] != around[j] by {
            assert(around[i].1 == Some(i as u8) && around[j].1 == Some(j as u8));
        }
    }
}

/// A router goes round: its four neighbours, from the direction that it is turned to on.
pub proof fn law_router_goes_round(tile: TileView, link: Option<i32>, incoming: Seq<i32>, i: int)
    requires
        tile.block == 266,
        0 <= i < 4,
    ensures
        ({
            let targets = targets_of(tile, link, incoming);
            let direction = ((tile.rotation + i) % 4) as u8;
            targets.len() == 4 && targets[i] == (
                neighbour(tile.position, direction),
                Some(direction),
            )
        }),
{
    assert((tile.rotation % 4 + i) % 4 == (tile.rotation + i) % 4);
}

proof fn lemma_ring_is_whole(occupied: Seq<i32>, n: nat, k: int, d: u8)
    requires
        n <= 4 * occupied.len(),
        0 <= k,
        d < 4,
        4 * k + d < n,
        !occupied.contains(neighbour(occupied[k], d)),
    ensures
        exists|i: int|
            0 <= i < ring(occupied, n).len() && (#[trigger] ring(occupied, n)[i]).0 == neighbour(
                occupied[k],
                d,
            ),
    decreases n,
{
    let target = neighbour(occupied[k], d);
    let before = ring(occupied, (n - 1) as nat);
    let all = ring(occupied, n);
    if 4 * k + d == n - 1 {
        assert((n - 1) / 4 == k && (n - 1) % 4 == d);
        if exists|j: int| 0 <= j < before.len() && (#[trigger] before[j]).0 == target {
            assert(all == before);
            let j = choose|j: int| 0 <= j < before.len() && (#[trigger] before[j]).0 == target;
            assert(all[j].0 == target);
        } else {
            assert(all[before.len() as int].0 == target);
        }
    } else {
        lemma_ring_is_whole(occupied, (n - 1) as nat, k, d);
        let j = choose|j: int| 0 <= j < before.len() && (#[trigger] before[j]).0 == target;
        assert(all[j] == before[j]);
    }
}

/// A large router goes round too: to every position beside what it covers, each once, and to
/// no other, beginning with the one that it is turned to.
pub proof fn law_large_router_goes_all_round(
    tile: TileView,
    link: Option<i32>,
    incoming: Seq<i32>,
    k: int,
    d: u8,
    i: int,
    j: int,
)
    requires
        tile.block == 267,
    ensures
        ({
            let targets = targets_of(tile, link, incoming);
            let around = ring(tile.occupied, 4 * tile.occupied.len());
            let n = around.len() as int;
            &&& targets.len() == n
            &&& 0 <= k < tile.occupied.len() && d < 4 && !tile.occupied.contains(
                neighbour(tile.occupied[k], d),
            ) ==> exists|m: int|
                0 <= m < targets.len() && (#[trigger] targets[m]).0 == neighbour(
                    tile.occupied[k],
                    d,
                )
            &&& 0 <= i < n ==> !tile.occupied.contains(targets[i].0)
            &&& 0 <= i < n ==> exists|m: int, e: u8|
                0 <= m < tile.occupied.len() && e < 4 && targets[i].0 == #[trigger] neighbour(
                    tile.occupied[m],
                    e,
                )
            &&& 0 <= i < j < n ==> targets[i].0 != targets[j].0
            &&& 0 <= i < n ==> targets[i] == around[(tile.rotation + i) % n]
        }),
{
    let occupied = tile.occupied;
    let count = 4 * occupied.len();
    law_ring_is_outside(occupied, count);
    let around = ring(occupied, count);
    let targets = targets_of(tile, link, incoming);
    let n = around.len() as int;
    if n > 0 {
        let r = tile.rotation as int % n;
        assert(0 <= r < n) by (nonlinear_arith)
            requires
                n > 0,
                r == tile.rotation as int % n,
        ;
        assert(targets =~= around.skip(r) + around.take(r));
        assert forall|m: int| 0 <= m < n implies #[trigger] targets[m] == around[if m < n - r {
            r + m
        } else {
            m - (n - r)
        }] by {}
        if 0 <= i < n {
            let to = if i < n - r { r + i } else { i - (n - r) };
            assert((tile.rotation + i) % n == to) by {
                vstd::arithmetic::div_mod::lemma_fundamental_div_mod(tile.rotation as int, n);
                let q = tile.rotation as int / n;
                assert(n * q == q * n) by (nonlinear_arith);
                if i < n - r {
                    assert(tile.rotation + i == n * q + to);
                    vstd::arithmetic::div_mod::lemma_fundamental_div_mod_converse_mod(
                        tile.rotation + i,
                        n,
                        q,
                        to,
                    );
                } else {
                    assert((q + 1) * n == q * n + n) by (nonlinear_arith);
                    vstd::arithmetic::div_mod::lemma_fundamental_div_mod_converse_mod(
                        tile.rotation + i,
                        n,
                        q + 1,
                        to,
                    );
                }
            }
            assert(targets[i] == around[to]);
        }
        if 0 <= i < j < n {
            let a = if i < n - r { r + i } else { i - (n - r) };
            let b = if j < n - r { r + j } else { j - (n - r) };
            assert(targets[i] == around[a] && targets[j] == around[b]);
            if a < b {
                assert(around[a].0 != around[b].0);
            } else {
                assert(around[b].0 != around[a].0);
            }
        }
    }
    if 0 <= k < occupied.len() && d < 4 && !occupied.contains(neighbour(occupied[k], d)) {
        lemma_ring_is_whole(occupied, count, k, d);
        let m = choose|m: int|
            0 <= m < around.len() && (#[trigger] around[m]).0 == neighbour(occupied[k], d);
        let r = tile.rotation as int % n;
        assert(0 <= r < n) by (nonlinear_arith)
            requires
                n > 0,
                r == tile.rotation as int % n,
        ;
        let at = if m >= r { m - r } else { m + n - r };
        assert(targets[at] == around[m]);
    }
}

// ---------------------------------------------------------------------------
// Queued buildings.

/// A router has its one item under way where it holds one. Every other building has those of
/// its list, and without a list as many of the stored item as it counts, 14 at most, spread
/// out from its progress.
pub proof fn law_what_is_under_way<S: Fn(u32, u32) -> u32>(tile: TileView, spread: S, i: int)
    ensures
        ({
            let queue = queue_now(tile, spread);
            let one = tile.block == 266 || tile.block == 267;
            let listed = tile.conveyor_items.len() > 0;
            let counted = tile.stored_amount > 0 && tile.stored_item >= 0;
            &&& one && tile.stored_amount > 0 ==> queue == seq![
                (tile.stored_item, tile.transport_progress),
            ]
            &&& one && tile.stored_amount <= 0 ==> queue.len() == 0
            &&& !one && listed ==> queue == tile.conveyor_items
            &&& !one && !listed && !counted ==> queue.len() == 0
            &&& !one && !listed && counted ==> queue.len() == if tile.stored_amount < 14 {
                tile.stored_amount as int
            } else {
                14
            }
            &&& !one && !listed && counted && 0 <= i < queue.len() ==> queue[i] == (
                tile.stored_item,
                value2(spread, tile.transport_progress, i as u32),
            )
        }),
{
}

/// Every item under way in a queued building goes one step, whether others stand still or
/// not.
pub proof fn law_queued_items_all_step<F: Fn(i32, u32) -> u32>(
    queue: Seq<(i16, u32)>,
    advance: F,
    key: i32,
    i: int,
)
    requires
        0 <= i < queue.len(),
    ensures
        stepped(queue, advance, key).len() == queue.len(),
        stepped(queue, advance, key)[i].0 == queue[i].0,
        stepped(queue, advance, key)[i].1 == value_at(advance, key, queue[i].1),
{
}

/// The first item that has come to the end is the one that is ready.
pub proof fn law_first_arrival_is_ready(queue: Seq<(i16, u32)>, from: int, at: int)
    requires
        0 <= from <= at <= queue.len(),
        forall|i: int| from <= i < at ==> !at_most(0x3F80_0000, (#[trigger] queue[i]).1),
        at < queue.len() ==> at_most(0x3F80_0000, queue[at].1),
    ensures
        ready_from(queue, from) == at,
    decreases at - from,
{
    if from < at {
        assert(!at_most(0x3F80_0000, queue[from].1));
        law_first_arrival_is_ready(queue, from + 1, at);
    }
}

/// What stays behind keeps its place and its order. A taken item is gone; one that nobody
/// took waits at the front, just short of the end, so that it is offered again.
pub proof fn law_what_stays_behind(queue: Seq<(i16, u32)>, d: Delivery, at: int, i: int)
    requires
        0 <= at < queue.len(),
        ready_from(queue, 0) == at,
    ensures
        ({
            let kept = kept_queue(queue, d);
            let source = if i < at { i } else { i + 1 };
            &&& d is Taken ==> kept.len() == queue.len() - 1
            &&& d is Taken && 0 <= i < kept.len() ==> kept[i] == queue[source]
            &&& d is Blocked ==> kept.len() == queue.len()
            &&& d is Blocked ==> kept[0].0 == queue[at].0 && below(kept[0].1, 0x3F80_0000)
                && below(0x3F7F_F000, kept[0].1)
            &&& d is Blocked && 0 <= i < kept.len() - 1 ==> kept[i + 1] == queue[source]
            &&& d is Idle || d is Waiting ==> kept == queue
        }),
{
}

/// A router that gave its item away is empty and turns to the direction behind the one that
/// took it; one that did not keeps its direction and its item. Other buildings do not turn.
pub proof fn law_router_turns_on(
    tile: TileView,
    queue: Seq<(i16, u32)>,
    taken_in: Option<u8>,
)
    ensures
        ({
            let after = settled_tile(tile, queue, taken_in);
            let one = tile.block == 266 || tile.block == 267;
            &&& one && taken_in is Some ==> after.rotation < 4 && (after.rotation
                - taken_in.unwrap() - 1) % 4 == 0
            &&& !one || taken_in is None ==> after.rotation == tile.rotation
            &&& one && queue.len() == 0 ==> after.stored_amount == 0 && after.stored_item == -1
                && after.transport_progress == 0
            &&& one && queue.len() > 0 ==> after.stored_amount == 1 && (
                after.stored_item,
                after.transport_progress,
            ) == queue[0]
            &&& one ==> after.conveyor_items == tile.conveyor_items
            &&& !one ==> after.conveyor_items == queue
            &&& after.block == tile.block && after.team == tile.team && after.position
                == tile.position
            &&& after.occupied == tile.occupied && after.inventory == tile.inventory
            &&& after.production_progress == tile.production_progress && after.liquid_amount
                == tile.liquid_amount && after.stored_liquid == tile.stored_liquid
        }),
{
}

/// A queued building does nothing when it is empty, waits while nothing has come to the end,
/// and otherwise gives away the first item that has, or nothing.
pub proof fn law_queue_gives_the_first_arrival<A, B, G, S, F, O>(
    math: BeltMath<A, B, G>,
    spread: S,
    advance: F,
    outside: O,
    w: WorldView,
    key: i32,
    link: Option<i32>,
    incoming: Seq<i32>,
    d: Delivery,
    at: int,
) where
    A: Fn(u32) -> u32,
    B: Fn(u32, u32) -> u32,
    G: Fn(u32) -> u32,
    S: Fn(u32, u32) -> u32,
    F: Fn(i32, u32) -> u32,
    O: Fn(&DynamicWorld, i32, i16, i32) -> Option<Taker>,

    requires
        may_step(math, spread, advance, outside, w, key, link, incoming, d),
        0 <= at <= stepped_queue(w, key, spread, advance).len(),
        forall|i: int|
            0 <= i < at ==> !at_most(
                0x3F80_0000,
                (#[trigger] stepped_queue(w, key, spread, advance)[i]).1,
            ),
        at < stepped_queue(w, key, spread, advance).len() ==> at_most(
            0x3F80_0000,
            stepped_queue(w, key, spread, advance)[at].1,
        ),
    ensures
        ({
            let queue = stepped_queue(w, key, spread, advance);
            let targets = targets_of(w.tiles[key], link, incoming);
            &&& d is Idle <==> !w.tiles.dom().contains(key) || queue.len() == 0
            &&& d is Waiting <==> w.tiles.dom().contains(key) && queue.len() > 0 && at
                == queue.len()
            &&& (d matches Delivery::Taken { target, item, taker } ==> at < queue.len() && item
                == queue[at].0 && target < targets.len())
        }),
{
    law_first_arrival_is_ready(stepped_queue(w, key, spread, advance), 0, at);
}

/// An item goes to the first target that takes it: no belt that is passed over would have
/// taken it, and where the targets are belts it is given away exactly when one of them takes
/// it.
pub proof fn law_first_taker_gets_it<A, B, G, O>(
    math: BeltMath<A, B, G>,
    outside: O,
    w: WorldView,
    targets: Seq<(i32, Option<u8>)>,
    item: i16,
    from: i32,
    taken: Option<(usize, Taker)>,
    i: int,
) where
    A: Fn(u32) -> u32,
    B: Fn(u32, u32) -> u32,
    G: Fn(u32) -> u32,
    O: Fn(&DynamicWorld, i32, i16, i32) -> Option<Taker>,

    requires
        may_deliver(math, outside, w, targets, item, from, taken),
        0 <= i < targets.len(),
        w.tiles.dom().contains(targets[i].0),
        one_of_the_belts(w.tiles[targets[i].0].block),
    ensures
        ({
            let open = queue_after_entry(math, w, targets[i].0, item, Some(from)) is Some;
            &&& open ==> (taken matches Some((n, _)) && n <= i)
            &&& (taken matches Some((n, taker)) ==> n < targets.len() && (n == i ==> open && taker
                == (Taker::Belt { key: targets[i].0, from })))
        }),
{
    let target = targets[i].0;
    assert(crate::logistics::is_belt(w, target));
}

// ---------------------------------------------------------------------------
// A pass.

/// In a pass every building runs in its turn, on what those before it left.
pub proof fn law_each_building_has_its_turn<A, B, G, S, F>(
    math: BeltMath<A, B, G>,
    spread: S,
    advance: F,
    bridges: Bridges,
    w: WorldView,
    keys: Seq<i32>,
    steps: Seq<Step>,
    i: int,
) where
    A: Fn(u32) -> u32,
    B: Fn(u32, u32) -> u32,
    G: Fn(u32) -> u32,
    S: Fn(u32, u32) -> u32,
    F: Fn(i32, u32) -> u32,

    requires
        keys.len() == steps.len(),
        0 <= i < keys.len(),
    ensures
        after_pass(math, spread, advance, bridges, w, keys.take(0), steps.take(0)) == w,
        after_pass(math, spread, advance, bridges, w, keys.take(i + 1), steps.take(i + 1))
            == after_run(
            math,
            spread,
            advance,
            bridges,
            after_pass(math, spread, advance, bridges, w, keys.take(i), steps.take(i)),
            keys[i],
            steps[i],
        ),
{
    assert(keys.take(i + 1).drop_last() =~= keys.take(i));
    assert(steps.take(i + 1).drop_last() =~= steps.take(i));
}

} // verus!
