//! What drills mine and where it goes, and what reaches a core.

use crate::conveyor::{value1, TileView};
use crate::economy::{
    drill_after, drill_delivers, drill_ticked, drills_after, operates, spec_drill_liquid_boost,
    spec_drill_power, stored_after, DrillTick, EconomyView,
};
use crate::float_bits::{at_most, below, not_a_number};
use crate::laws::factories::{law_delivery_raises_one_count, least, most};
use crate::logistics::{Delivery, Handoff, Step, Taker};
use crate::production::core_holds;
use vstd::prelude::*;

verus! {

// ---------------------------------------------------------------------------
// A drill on the map.

/// Whether a drill can work: there is ore under it, room in it, and power.
pub open spec fn can_work(tile: TileView, t: DrillTick) -> bool {
    t.ore is Some && tile.stored_amount < t.capacity && below(0, t.efficiency)
}

/// Whether the fields of a building that no drill touches are the same.
pub open spec fn same_building(a: TileView, b: TileView) -> bool {
    &&& a.position == b.position
    &&& a.block == b.block
    &&& a.rotation == b.rotation
    &&& a.team == b.team
    &&& a.occupied == b.occupied
    &&& a.conveyor_items == b.conveyor_items
    &&& a.inventory == b.inventory
}

/// A working drill whose progress reaches the delay holds one more of the item of its ore,
/// if it is empty or holds that item already; where it holds another, it keeps that as it
/// is. Until then it holds what it held, and its progress grows. A drill that does not work
/// mines nothing and keeps its progress.
pub proof fn law_drill_stores_what_it_mines<P: Fn(u32) -> u32, W: Fn(u32) -> u32>(
    tile: TileView,
    t: DrillTick,
    progressed: P,
    wrapped: W,
)
    ensures
        operates(tile, t) <==> can_work(tile, t),
        ({
            let after = drill_ticked(tile, t, progressed, wrapped);
            let progress = value1(progressed, after.transport_progress);
            let due = at_most(t.delay, progress);
            &&& same_building(after, tile)
            &&& can_work(tile, t) && due && (tile.stored_amount == 0 || Some(tile.stored_item)
                == t.ore) ==> after.stored_amount == tile.stored_amount + 1 && Some(
                after.stored_item,
            ) == t.ore
            &&& can_work(tile, t) && due && tile.stored_amount != 0 && Some(tile.stored_item)
                != t.ore ==> after.stored_amount == tile.stored_amount && after.stored_item
                == tile.stored_item
            &&& can_work(tile, t) && due ==> after.production_progress == value1(
                wrapped,
                progress,
            )
            &&& can_work(tile, t) && !due ==> after.production_progress == progress
            &&& !can_work(tile, t) ==> after.production_progress == tile.production_progress
            &&& !(can_work(tile, t) && due) ==> after.stored_amount == tile.stored_amount
                && after.stored_item == tile.stored_item
        }),
{
}

/// A working drill warms up towards its speed and an idle one cools down towards nothing; a
/// tick goes one step and never past the target.
pub proof fn law_drill_warms_towards_its_speed<P: Fn(u32) -> u32, W: Fn(u32) -> u32>(
    tile: TileView,
    t: DrillTick,
    progressed: P,
    wrapped: W,
)
    requires
        !not_a_number(tile.transport_progress),
        !not_a_number(t.speed),
        !not_a_number(t.warmer),
        !not_a_number(t.colder),
    ensures
        ({
            let now = tile.transport_progress;
            let warm = drill_ticked(tile, t, progressed, wrapped).transport_progress;
            let target = if can_work(tile, t) { t.speed } else { 0 };
            &&& below(now, target) && at_most(t.warmer, target) ==> warm == t.warmer
            &&& below(now, target) && at_most(target, t.warmer) ==> at_most(warm, target)
                && at_most(target, warm)
            &&& at_most(target, now) && at_most(target, t.colder) ==> warm == t.colder || (
            at_most(warm, target) && at_most(t.colder, target))
            &&& at_most(target, now) && at_most(t.colder, target) ==> at_most(warm, target)
                && at_most(target, warm)
        }),
{
}

/// A working drill uses water while it has any: what is left stays, and a drill that is left
/// with next to nothing is dry. A drill that is idle, has no water or takes none keeps what
/// liquid it has.
pub proof fn law_drill_uses_its_water<P: Fn(u32) -> u32, W: Fn(u32) -> u32>(
    tile: TileView,
    t: DrillTick,
    progressed: P,
    wrapped: W,
)
    ensures
        ({
            let after = drill_ticked(tile, t, progressed, wrapped);
            let uses = can_work(tile, t) && tile.stored_liquid == 0 && below(
                0,
                tile.liquid_amount,
            ) && below(0, t.water_rate);
            &&& uses && below(0x38D1_B717, t.drained) ==> after.liquid_amount == t.drained
                && after.stored_liquid == 0
            &&& uses && at_most(t.drained, 0x38D1_B717) ==> after.liquid_amount == 0
                && after.stored_liquid == -1
            &&& !uses ==> after.liquid_amount == tile.liquid_amount && after.stored_liquid
                == tile.stored_liquid
        }),
{
}

/// The four drills are sped up by a liquid, and each larger one takes more of it; nothing
/// else takes any or is sped up.
pub proof fn law_larger_drills_take_more_water(block: i16)
    ensures
        ({
            let (speed, rate, warmup) = spec_drill_liquid_boost(block);
            &&& 325 <= block <= 328 <==> below(0x3F80_0000, speed)
            &&& 325 <= block <= 328 <==> below(0, rate)
            &&& below(0, warmup) && below(warmup, 0x3F80_0000)
            &&& at_most(0x3F80_0000, speed) && at_most(0, rate)
            &&& 325 <= block < 328 ==> below(rate, spec_drill_liquid_boost((block + 1) as i16).1)
            &&& 325 <= block < 328 ==> at_most(
                speed,
                spec_drill_liquid_boost((block + 1) as i16).0,
            )
            &&& 325 <= block < 328 ==> at_most(
                spec_drill_liquid_boost((block + 1) as i16).2,
                warmup,
            )
        }),
{
}

/// A drill in a power graph has its power, within nothing and all. Without one, the two
/// that need none work fully and the others not at all.
pub proof fn law_drill_power(block: i16, power: u32)
    ensures
        at_most(0, power) && at_most(power, 0x3F80_0000) ==> spec_drill_power(block, Some(power))
            == power,
        below(power, 0) ==> spec_drill_power(block, Some(power)) == 0,
        below(0x3F80_0000, power) ==> spec_drill_power(block, Some(power)) == 0x3F80_0000,
        spec_drill_power(block, None) == 0x3F80_0000 <==> block == 325 || block == 326,
        spec_drill_power(block, None) == 0 <==> block != 325 && block != 326,
{
}

// ---------------------------------------------------------------------------
// Drills that came with the map.

/// How much of an item the drill under `key` brings to a team: what it produced, if it is a
/// drill of that team that came with the map and no building of the map stands in its place.
pub open spec fn brought_by(
    e: EconomyView,
    drills: Seq<i16>,
    produced: Map<i32, (i16, i32)>,
    key: i32,
    team: u8,
    item: i16,
) -> int {
    if !e.world.tiles.dom().contains(key) && e.base.dom().contains(key) && e.base[key].team
        == team && (exists|i: int| 0 <= i < drills.len() && drills[i] == e.base[key].block)
        && produced.dom().contains(key) && produced[key].0 == item && produced[key].1 > 0 {
        produced[key].1 as int
    } else {
        0
    }
}

/// How much of an item the drills under `keys` bring to a team.
pub open spec fn brought(
    e: EconomyView,
    drills: Seq<i16>,
    produced: Map<i32, (i16, i32)>,
    keys: Seq<i32>,
    team: u8,
    item: i16,
) -> int
    decreases keys.len(),
{
    if keys.len() == 0 {
        0
    } else {
        brought(e, drills, produced, keys.drop_last(), team, item) + brought_by(
            e,
            drills,
            produced,
            keys.last(),
            team,
            item,
        )
    }
}

/// The core of every team holds afterwards what its drills brought on top of what it held,
/// up to its capacity: all drills count, each once, and none counts for another team. No
/// building changes.
pub proof fn law_drills_feed_their_own_core(
    e: EconomyView,
    drills: Seq<i16>,
    produced: Map<i32, (i16, i32)>,
    keys: Seq<i32>,
    team: u8,
    item: i16,
)
    requires
        e.cores.dom().contains(team as i32),
    ensures
        ({
            let after = drills_after(e, drills, produced, keys);
            let before = core_holds(e.cores[team as i32], item);
            &&& after.world == e.world
            &&& after.base == e.base
            &&& after.capacity == e.capacity
            &&& after.cores.dom() == e.cores.dom()
            &&& after.cores[team as i32].len() == e.cores[team as i32].len()
            &&& 0 <= brought(e, drills, produced, keys, team, item)
            &&& core_holds(after.cores[team as i32], item) == if 0 <= item
                < e.cores[team as i32].len() {
                least(
                    before + brought(e, drills, produced, keys, team, item),
                    most(before, e.capacity as int),
                )
            } else {
                before
            }
        }),
    decreases keys.len(),
{
    if keys.len() > 0 {
        let front = keys.drop_last();
        let key = keys.last();
        law_drills_feed_their_own_core(e, drills, produced, front, team, item);
        let mid = drills_after(e, drills, produced, front);
        let after = drills_after(e, drills, produced, keys);
        assert(after == drill_after(mid, drills, produced, key));
        if e.base.dom().contains(key) && produced.dom().contains(key) && produced[key].1 > 0 {
            law_delivery_raises_one_count(
                mid.cores[team as i32],
                produced[key].0,
                produced[key].1 as int,
                e.capacity,
                item,
            );
        }
        assert(after.cores.dom() =~= e.cores.dom());
    }
}

/// A drill counts as delivering exactly when it brings something to some team.
pub proof fn law_delivering_is_bringing(
    e: EconomyView,
    drills: Seq<i16>,
    produced: Map<i32, (i16, i32)>,
    key: i32,
)
    ensures
        drill_delivers(e, drills, produced, key) <==> exists|team: u8, item: i16| #[trigger]
            brought_by(e, drills, produced, key, team, item) > 0,
{
    if drill_delivers(e, drills, produced, key) {
        assert(brought_by(e, drills, produced, key, e.base[key].team, produced[key].0) > 0);
    }
}

// ---------------------------------------------------------------------------
// What reaches a core.

/// How many of an item the steps brought to a team.
pub open spec fn arrived_for(steps: Seq<Step>, team: u8, item: i16) -> int
    decreases steps.len(),
{
    if steps.len() == 0 {
        0
    } else {
        arrived_for(steps.drop_last(), team, item) + match steps.last() {
            Step::Belt(Handoff::Accepted { item: what, taker: Taker::Core(to) }) => if what == item
                && to == team {
                1int
            } else {
                0
            },
            Step::Queue(Delivery::Taken { item: what, taker: Taker::Core(to), .. }) => if what
                == item && to == team {
                1
            } else {
                0
            },
            _ => 0,
        }
    }
}

/// Every item that the steps brought to a core is in it, once, up to its capacity.
pub proof fn law_every_arrival_is_stored(
    e: EconomyView,
    steps: Seq<Step>,
    team: u8,
    item: i16,
)
    requires
        e.cores.dom().contains(team as i32),
    ensures
        ({
            let after = stored_after(e, steps);
            let before = core_holds(e.cores[team as i32], item);
            &&& after.world == e.world
            &&& after.base == e.base
            &&& after.capacity == e.capacity
            &&& after.cores.dom() == e.cores.dom()
            &&& after.cores[team as i32].len() == e.cores[team as i32].len()
            &&& 0 <= arrived_for(steps, team, item)
            &&& core_holds(after.cores[team as i32], item) == if 0 <= item
                < e.cores[team as i32].len() {
                least(
                    before + arrived_for(steps, team, item),
                    most(before, e.capacity as int),
                )
            } else {
                before
            }
        }),
    decreases steps.len(),
{
    if steps.len() > 0 {
        let front = steps.drop_last();
        law_every_arrival_is_stored(e, front, team, item);
        let mid = stored_after(e, front);
        let after = stored_after(e, steps);
        if let Some((what, Taker::Core(to))) = crate::logistics::given(steps.last()) {
            law_delivery_raises_one_count(mid.cores[team as i32], what, 1, e.capacity, item);
        }
        assert(after.cores.dom() =~= e.cores.dom());
    }
}

} // verus!
