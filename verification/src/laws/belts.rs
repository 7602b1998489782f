//! Where items come onto a belt from, in coordinates, and what a belt holds afterwards.

use crate::conveyor::{
    accept_minitem, covered, entered, entry, first_touching, law_minitem_is_least, middle_from,
    neighbour, queue_after_entry, relative, side_insert_index, with_queue, wrapped16, BeltMath,
    Entry, TileView, WorldView,
};
use crate::float_bits::{at_most, below, clamped, finite};
use crate::rpc::{law_tile_unpacks, tile_column, tile_row};
use vstd::prelude::*;

verus! {

/// How far a step in a direction goes to the right.
pub open spec fn step_right(direction: int) -> int {
    if direction == 0 {
        1
    } else if direction == 2 {
        -1
    } else {
        0
    }
}

/// How far a step in a direction goes up.
pub open spec fn step_up(direction: int) -> int {
    if direction == 1 {
        1
    } else if direction == 3 {
        -1
    } else {
        0
    }
}

/// A position is its column and its row, each with sixteen bits, the column above the row.
pub proof fn law_position_is_column_and_row(position: i32)
    ensures
        position == tile_column(position) * 0x1_0000 + (if tile_row(position) < 0 {
            tile_row(position) + 0x1_0000
        } else {
            tile_row(position) as int
        }),
{
}

/// A neighbour lies one step away in its direction; at the edge of the coordinate range the
/// step leads to the other edge.
pub proof fn law_neighbour_is_one_step_away(position: i32, rotation: u8)
    ensures
        (tile_column(neighbour(position, rotation)) - tile_column(position) - step_right(
            rotation as int % 4,
        )) % 0x1_0000 == 0,
        (tile_row(neighbour(position, rotation)) - tile_row(position) - step_up(
            rotation as int % 4,
        )) % 0x1_0000 == 0,
{
    let x = tile_column(position);
    let y = tile_row(position);
    if rotation % 4 == 0 {
        law_tile_unpacks(wrapped16(x + 1), y);
        lemma_wrapped(x as int, 1);
    } else if rotation % 4 == 1 {
        law_tile_unpacks(x, wrapped16(y + 1));
        lemma_wrapped(y as int, 1);
    } else if rotation % 4 == 2 {
        law_tile_unpacks(wrapped16(x - 1), y);
        lemma_wrapped(x as int, -1);
    } else {
        law_tile_unpacks(x, wrapped16(y - 1));
        lemma_wrapped(y as int, -1);
    }
}

proof fn lemma_wrapped(v: int, step: int)
    ensures
        (wrapped16(v + step) - v - step) % 0x1_0000 == 0,
{
    let w = v + step;
    let low = w % 0x1_0000;
    assert(wrapped16(w) == low || wrapped16(w) == low - 0x1_0000);
}

/// One position touches another in a direction exactly when a step in that direction leads
/// from the one to the other.
pub proof fn law_touching_is_one_step(from: i32, to: i32, direction: u8)
    ensures
        relative(from, to) == Some(direction) <==> {
            &&& direction < 4
            &&& tile_column(to) - tile_column(from) == step_right(direction as int)
            &&& tile_row(to) - tile_row(from) == step_up(direction as int)
        },
{
}

/// Whether two positions lie side by side.
pub open spec fn side_by_side(a: i32, b: i32) -> bool {
    let dx = tile_column(a) - tile_column(b);
    let dy = tile_row(a) - tile_row(b);
    (dx == 0 && (dy == 1 || dy == -1)) || (dy == 0 && (dx == 1 || dx == -1))
}

/// Whether the building touches `position` first with the tile `at`: that tile lies beside
/// it, and no tile listed before does.
pub open spec fn touches_at(building: TileView, position: i32, at: int) -> bool {
    if building.occupied.len() == 0 {
        at == 0 && side_by_side(building.position, position)
    } else {
        &&& 0 <= at < building.occupied.len()
        &&& side_by_side(building.occupied[at], position)
        &&& forall|i: int|
            0 <= i < at ==> !side_by_side(#[trigger] building.occupied[i], position)
    }
}

/// The tile of a building.
pub open spec fn tile_at(building: TileView, at: int) -> i32 {
    if building.occupied.len() == 0 { building.position } else { building.occupied[at] }
}

proof fn lemma_first_touching(positions: Seq<i32>, target: i32, at: int)
    requires
        0 <= at < positions.len(),
        side_by_side(positions[at], target),
        forall|i: int| 0 <= i < at ==> !side_by_side(#[trigger] positions[i], target),
    ensures
        first_touching(positions, target) == Some(positions[at]),
    decreases positions.len(),
{
    if at > 0 {
        assert(!side_by_side(positions[0], target));
        let rest = positions.skip(1);
        assert forall|i: int| 0 <= i < at - 1 implies !side_by_side(
            #[trigger] rest[i],
            target,
        ) by {
            assert(rest[i] == positions[i + 1]);
        }
        assert(rest[at - 1] == positions[at]);
        lemma_first_touching(rest, target, at - 1);
    }
}

proof fn lemma_none_touching(positions: Seq<i32>, target: i32)
    requires
        forall|i: int|
            0 <= i < positions.len() ==> !side_by_side(#[trigger] positions[i], target),
    ensures
        first_touching(positions, target) is None,
    decreases positions.len(),
{
    if positions.len() > 0 {
        assert(!side_by_side(positions[0], target));
        let rest = positions.skip(1);
        assert forall|i: int| 0 <= i < rest.len() implies !side_by_side(
            #[trigger] rest[i],
            target,
        ) by {
            assert(rest[i] == positions[i + 1]);
        }
        lemma_none_touching(rest, target);
    }
}

/// A building touches a position with the first of its tiles that lies beside it.
pub proof fn law_building_touches_with_its_first_tile(building: TileView, position: i32, at: int)
    requires
        touches_at(building, position, at),
    ensures
        first_touching(covered(building), position) == Some(tile_at(building, at)),
{
    let tiles = covered(building);
    assert(tiles[at] == tile_at(building, at));
    lemma_first_touching(tiles, position, at);
}

/// A building that has no tile beside a position does not touch it.
pub proof fn law_distant_building_does_not_touch(building: TileView, position: i32)
    requires
        forall|at: int| !touches_at(building, position, at),
    ensures
        first_touching(covered(building), position) is None,
{
    let tiles = covered(building);
    if first_touching(tiles, position) is Some {
        if forall|i: int| 0 <= i < tiles.len() ==> !side_by_side(#[trigger] tiles[i], position) {
            lemma_none_touching(tiles, position);
        } else {
            let i = choose|i: int| 0 <= i < tiles.len() && side_by_side(#[trigger] tiles[i], position);
            let at = lemma_earliest(tiles, position, i);
            assert(touches_at(building, position, at));
        }
    }
}

proof fn lemma_earliest(tiles: Seq<i32>, position: i32, i: int) -> (at: int)
    requires
        0 <= i < tiles.len(),
        side_by_side(tiles[i], position),
    ensures
        0 <= at <= i,
        side_by_side(tiles[at], position),
        forall|j: int| 0 <= j < at ==> !side_by_side(#[trigger] tiles[j], position),
    decreases i,
{
    if forall|j: int| 0 <= j < i ==> !side_by_side(#[trigger] tiles[j], position) {
        i
    } else {
        let j = choose|j: int| 0 <= j < i && side_by_side(#[trigger] tiles[j], position);
        lemma_earliest(tiles, position, j)
    }
}

/// Whether a block is one of the three plain conveyors.
pub open spec fn one_of_the_belts(block: i16) -> bool {
    block == 257 || block == 258 || block == 260
}

/// Whether a block is transport that turns.
pub open spec fn one_that_turns(block: i16) -> bool {
    one_of_the_belts(block) || block == 261 || block == 264 || block == 265 || block == 266
        || block == 267 || block == 268 || block == 269
}

/// Whether every item that was on the belt before this tick has more than 0.7 behind it.
pub open spec fn side_is_free(queue: Seq<(i16, u32)>) -> bool {
    forall|i: int|
        0 <= i < queue.len() && below(0x38D1_B717, (#[trigger] queue[i]).1) ==> below(
            0x3F33_3333,
            queue[i].1,
        )
}

/// Whether every item that was on the belt before this tick has 0.4 or more behind it.
pub open spec fn rear_is_free(queue: Seq<(i16, u32)>) -> bool {
    forall|i: int|
        0 <= i < queue.len() && below(0x38D1_B717, (#[trigger] queue[i]).1) ==> at_most(
            0x3ECC_CCCD,
            queue[i].1,
        )
}

proof fn lemma_room(queue: Seq<(i16, u32)>)
    ensures
        below(0x3F33_3333, accept_minitem(queue)) <==> side_is_free(queue),
        at_most(0x3ECC_CCCD, accept_minitem(queue)) <==> rear_is_free(queue),
{
    law_minitem_is_least(queue);
    let least = accept_minitem(queue);
    if below(0x3F33_3333, least) {
        assert forall|i: int|
            0 <= i < queue.len() && below(0x38D1_B717, (#[trigger] queue[i]).1) implies below(
            0x3F33_3333,
            queue[i].1,
        ) by {
            assert(at_most(least, queue[i].1));
        }
    }
    if at_most(0x3ECC_CCCD, least) {
        assert forall|i: int|
            0 <= i < queue.len() && below(0x38D1_B717, (#[trigger] queue[i]).1) implies at_most(
            0x3ECC_CCCD,
            queue[i].1,
        ) by {
            assert(at_most(least, queue[i].1));
        }
    }
}

/// How the way of an item onto a belt lies to the way of the belt: 1 along it, -1 against
/// it, and 0 across it, from either side.
pub open spec fn along(belt: TileView, from: i32) -> int {
    (tile_column(belt.position) - tile_column(from)) * step_right(belt.rotation as int % 4) + (
    tile_row(belt.position) - tile_row(from)) * step_up(belt.rotation as int % 4)
}

/// Whether the belt would hand back to the building what it takes from it.
pub open spec fn feeds_back(source: TileView, next: Option<TileView>) -> bool {
    one_that_turns(source.block) && (next matches Some(n) && n.position == source.position)
}

proof fn lemma_facing(belt: TileView, from: i32)
    requires
        side_by_side(from, belt.position),
    ensures
        relative(from, belt.position) is Some,
        along(belt, from) == 1 <==> relative(from, belt.position) == Some(
            (belt.rotation % 4) as u8,
        ),
        along(belt, from) == 0 <==> {
            let d = relative(from, belt.position).unwrap() - belt.rotation % 4;
            d == 1 || d == -1 || d == 3 || d == -3
        },
        along(belt, from) == -1 <==> {
            let d = relative(from, belt.position).unwrap() - belt.rotation % 4;
            d == 2 || d == -2
        },
{
    let dx = tile_column(belt.position) - tile_column(from);
    let dy = tile_row(belt.position) - tile_row(from);
    let r = belt.rotation as int % 4;
    assert(r == 0 || r == 1 || r == 2 || r == 3);
    if r == 0 {
        assert(along(belt, from) == dx * 1 + dy * 0);
    } else if r == 1 {
        assert(along(belt, from) == dx * 0 + dy * 1);
    } else if r == 2 {
        assert(along(belt, from) == dx * (-1) + dy * 0);
    } else {
        assert(along(belt, from) == dx * 0 + dy * (-1));
    }
}

/// A belt that is not full takes an item from across, from either side, exactly when every
/// item that was there before has moved on by more than 0.7. It takes one from behind
/// exactly when they have moved on by 0.4. It takes none from ahead, none from a turning
/// building that it feeds itself, and an armored one takes none from across but from
/// another belt.
pub proof fn law_belt_takes_from_behind_and_from_both_sides(
    belt: TileView,
    queue: Seq<(i16, u32)>,
    source: TileView,
    next: Option<TileView>,
    at: int,
)
    requires
        one_of_the_belts(belt.block),
        touches_at(source, belt.position, at),
    ensures
        ({
            let way = along(belt, tile_at(source, at));
            let taken = entry(belt, queue, Some(source), next);
            let open = queue.len() < 3 && !feeds_back(source, next);
            let fits = belt.block != 260 || one_of_the_belts(source.block);
            &&& way == 1 || way == 0 || way == -1
            &&& way == 0 && open && fits && side_is_free(queue) ==> taken == Some(Entry::Side)
            &&& way == 1 && open && rear_is_free(queue) ==> taken == Some(Entry::Rear)
            &&& way == 0 && !(open && fits && side_is_free(queue)) ==> taken is None
            &&& way == 1 && !(open && rear_is_free(queue)) ==> taken is None
            &&& way == -1 ==> taken is None
        }),
{
    law_building_touches_with_its_first_tile(source, belt.position, at);
    lemma_facing(belt, tile_at(source, at));
    lemma_room(queue);
}

/// Both sides of a belt are equal: of two buildings of a kind that touch it from across, the
/// belt takes an item from the one exactly when it takes it from the other.
pub proof fn law_both_sides_are_equal(
    belt: TileView,
    queue: Seq<(i16, u32)>,
    left: TileView,
    right: TileView,
    next: Option<TileView>,
    at: int,
    to: int,
)
    requires
        touches_at(left, belt.position, at),
        touches_at(right, belt.position, to),
        along(belt, tile_at(left, at)) == 0,
        along(belt, tile_at(right, to)) == 0,
        left.block == right.block,
        !feeds_back(left, next),
        !feeds_back(right, next),
    ensures
        entry(belt, queue, Some(left), next) == entry(belt, queue, Some(right), next),
{
    if one_of_the_belts(belt.block) {
        law_belt_takes_from_behind_and_from_both_sides(belt, queue, left, next, at);
        law_belt_takes_from_behind_and_from_both_sides(belt, queue, right, next, to);
    }
}

/// An item from nowhere needs the room behind; nothing comes onto what is no belt, onto a
/// full belt, or from a building that is not beside it.
pub proof fn law_nothing_else_comes_in(
    belt: TileView,
    queue: Seq<(i16, u32)>,
    source: TileView,
    next: Option<TileView>,
)
    ensures
        entry(belt, queue, None, next) == if one_of_the_belts(belt.block) && queue.len() < 3
            && rear_is_free(queue) {
            Some(Entry::Rear)
        } else {
            None
        },
        !one_of_the_belts(belt.block) ==> entry(belt, queue, Some(source), next) is None,
        queue.len() >= 3 ==> entry(belt, queue, Some(source), next) is None,
        (forall|at: int| !touches_at(source, belt.position, at)) ==> entry(
            belt,
            queue,
            Some(source),
            next,
        ) is None,
{
    lemma_room(queue);
    if forall|at: int| !touches_at(source, belt.position, at) {
        law_distant_building_does_not_touch(source, belt.position);
    }
}

/// An item that comes in stands behind all others: from the rear at the start of the belt,
/// from the side in its middle. The others stay where they are.
pub proof fn law_new_item_stands_last(queue: Seq<(i16, u32)>, item: i16)
    requires
        queue.len() < 3,
    ensures
        entered(queue, item, Entry::Rear) == queue.push((item, 0u32)),
        entered(queue, item, Entry::Side) == queue.push((item, 0x3F00_0000u32)),
{
    assert(middle_from(queue, 1) == 0) by {
        reveal_with_fuel(middle_from, 3);
    }
    assert(queue.insert(queue.len() as int, (item, 0x3F00_0000u32)) =~= queue.push(
        (item, 0x3F00_0000u32),
    ));
}

proof fn lemma_middle(items: Seq<(i16, u32)>, j: int, k: int)
    requires
        1 <= j <= items.len() - 1 - k,
        0 <= k,
        below(0x3F00_0000, items[k].1),
        forall|i: int| k < i < items.len() - 1 ==> !below(0x3F00_0000, (#[trigger] items[i]).1),
    ensures
        middle_from(items, j) == items.len() - 2 - k,
    decreases items.len() - j,
{
    if j < items.len() - 1 - k {
        assert(!below(0x3F00_0000, items[items.len() - 1 - j].1));
        lemma_middle(items, j + 1, k);
    }
}

proof fn lemma_no_middle(items: Seq<(i16, u32)>, j: int)
    requires
        1 <= j,
        forall|i: int| 0 <= i < items.len() - 1 ==> !below(0x3F00_0000, (#[trigger] items[i]).1),
    ensures
        middle_from(items, j) == 0,
    decreases items.len() - j,
{
    if j < items.len() {
        assert(!below(0x3F00_0000, items[items.len() - 1 - j].1));
        lemma_no_middle(items, j + 1);
    }
}

/// An item from the side goes two places behind the rearmost item, but for the last, that
/// is past the middle; to the end where none is.
pub proof fn law_side_item_goes_behind_the_middle(items: Seq<(i16, u32)>, k: int)
    ensures
        0 <= k < items.len() - 1 && below(0x3F00_0000, items[k].1) && (forall|i: int|
            k < i < items.len() - 1 ==> !below(0x3F00_0000, (#[trigger] items[i]).1))
            ==> side_insert_index(items) == k + 2,
        (forall|i: int|
            0 <= i < items.len() - 1 ==> !below(0x3F00_0000, (#[trigger] items[i]).1))
            ==> side_insert_index(items) == items.len(),
{
    if 0 <= k < items.len() - 1 && below(0x3F00_0000, items[k].1) && (forall|i: int|
        k < i < items.len() - 1 ==> !below(0x3F00_0000, (#[trigger] items[i]).1)) {
        lemma_middle(items, 1, k);
    }
    if forall|i: int| 0 <= i < items.len() - 1 ==> !below(
        0x3F00_0000,
        (#[trigger] items[i]).1,
    ) {
        lemma_no_middle(items, 1);
    }
}

/// The shared fields of a belt follow its queue: how many items there are, which is at the
/// front, and how far it is. Nothing else of the building changes.
pub proof fn law_shared_fields_follow_the_queue(tile: TileView, queue: Seq<(i16, u32)>)
    requires
        queue.len() <= i32::MAX,
    ensures
        ({
            let after = with_queue(tile, queue);
            &&& after.conveyor_items == queue
            &&& after.stored_amount == queue.len()
            &&& queue.len() > 0 ==> (after.stored_item, after.transport_progress) == queue[0]
            &&& queue.len() == 0 ==> after.stored_item == -1 && after.transport_progress == 0
            &&& after.position == tile.position && after.block == tile.block
            &&& after.rotation == tile.rotation && after.team == tile.team
            &&& after.occupied == tile.occupied && after.inventory == tile.inventory
            &&& after.production_progress == tile.production_progress
            &&& after.stored_liquid == tile.stored_liquid
            &&& after.liquid_amount == tile.liquid_amount
        }),
{
}

/// A building is found where it is registered, and where its footprint lies unless another
/// building is registered there.
pub proof fn law_building_is_found_where_it_stands(world: WorldView, position: i32)
    ensures
        world.tiles.dom().contains(position) ==> world.occupant(position) == Some(
            world.tiles[position],
        ),
        !world.tiles.dom().contains(position) && world.footprint.dom().contains(position)
            && world.tiles.dom().contains(world.footprint[position]) ==> world.occupant(position)
            == Some(world.tiles[world.footprint[position]]),
        world.occupant(position) matches Some(t) ==> exists|key: i32| #[trigger]
            world.tiles.dom().contains(key) && world.tiles[key] == t && (key == position
                || world.footprint.dom().contains(position) && world.footprint[position] == key),
{
}

impl<A: Fn(u32) -> u32, B: Fn(u32, u32) -> u32, G: Fn(u32) -> u32> BeltMath<A, B, G> {
    /// An item that is offered to a belt in the world, from a building beside it, is on the
    /// belt afterwards exactly when the belt takes items from there: in the middle where it
    /// comes from either side, at the start where it comes from behind.
    pub proof fn law_offered_item_is_on_the_belt(
        self,
        world: WorldView,
        target: i32,
        item: i16,
        from: i32,
        source: TileView,
        at: int,
    )
        requires
            world.tiles.dom().contains(target),
            0 < world.tiles[target].conveyor_items.len(),
            world.occupant(from) == Some(source),
            one_of_the_belts(world.tiles[target].block),
            touches_at(source, world.tiles[target].position, at),
        ensures
            ({
                let belt = world.tiles[target];
                let queue = belt.conveyor_items;
                let way = along(belt, tile_at(source, at));
                let open = queue.len() < 3 && !feeds_back(
                    source,
                    world.occupant(neighbour(belt.position, belt.rotation)),
                );
                let fits = belt.block != 260 || one_of_the_belts(source.block);
                queue_after_entry(self, world, target, item, Some(from)) == if way == 0 && open
                    && fits && side_is_free(queue) {
                    Some(queue.push((item, 0x3F00_0000u32)))
                } else if way == 1 && open && rear_is_free(queue) {
                    Some(queue.push((item, 0u32)))
                } else {
                    None
                }
            }),
    {
        let belt = world.tiles[target];
        let queue = belt.conveyor_items;
        let next = world.occupant(neighbour(belt.position, belt.rotation));
        law_belt_takes_from_behind_and_from_both_sides(belt, queue, source, next, at);
        if queue.len() < 3 {
            law_new_item_stands_last(queue, item);
        }
    }

    /// No item comes onto a belt that is not there, nor from where no building stands.
    pub proof fn law_offer_needs_both_ends(
        self,
        world: WorldView,
        target: i32,
        item: i16,
        from: i32,
    )
        ensures
            !world.tiles.dom().contains(target) ==> queue_after_entry(
                self,
                world,
                target,
                item,
                Some(from),
            ) is None && queue_after_entry(self, world, target, item, None) is None,
            world.occupant(from) is None ==> queue_after_entry(
                self,
                world,
                target,
                item,
                Some(from),
            ) is None,
            ({
                let belt = world.tiles[target];
                let queue = belt.conveyor_items;
                world.tiles.dom().contains(target) && queue.len() > 0 ==> queue_after_entry(
                    self,
                    world,
                    target,
                    item,
                    None,
                ) == if one_of_the_belts(belt.block) && queue.len() < 3 && rear_is_free(queue) {
                    Some(queue.push((item, 0u32)))
                } else {
                    None
                }
            }),
    {
        let belt = world.tiles[target];
        lemma_room(belt.conveyor_items);
        if belt.conveyor_items.len() < 3 {
            law_new_item_stands_last(belt.conveyor_items, item);
        }
    }

    /// A belt without a list of its own holds what the shared fields count: that many of the
    /// one item, three at most. Where they count nothing or name no item, it is empty, and an
    /// item from nowhere finds room.
    pub proof fn law_old_belt_holds_what_it_counts(self, world: WorldView, target: i32, item: i16)
        requires
            world.tiles.dom().contains(target),
            one_of_the_belts(world.tiles[target].block),
            world.tiles[target].conveyor_items.len() == 0,
        ensures
            ({
                let belt = world.tiles[target];
                let queue = self.normalized(belt);
                let full = belt.stored_amount > 0 && belt.stored_item >= 0;
                &&& full ==> queue.len() == if belt.stored_amount < 3 {
                    belt.stored_amount as int
                } else {
                    3
                }
                &&& forall|i: int|
                    0 <= i < queue.len() ==> (#[trigger] queue[i]).0 == belt.stored_item
                &&& !full ==> queue.len() == 0
                &&& !full ==> queue_after_entry(self, world, target, item, None) == Some(
                    seq![(item, 0u32)],
                )
            }),
    {
        let belt = world.tiles[target];
        let legacy = self.legacy_queue(belt);
        let queue = self.normalized(belt);
        self.law_healing_keeps_order(legacy);
        if !(belt.stored_amount > 0 && belt.stored_item >= 0) {
            lemma_room(queue);
            law_new_item_stands_last(queue, item);
            assert(queue.push((item, 0u32)) =~= seq![(item, 0u32)]);
        }
    }

    /// The one item that the shared fields of a belt count stands where they say, brought
    /// back onto the belt; where they say nothing that is a number, at its start.
    pub proof fn law_old_item_stands_where_it_was(self, belt: TileView)
        requires
            belt.conveyor_items.len() == 0,
            belt.stored_amount == 1,
            belt.stored_item >= 0,
            forall|x: u32| at_most(0, x) && at_most(x, 0x3F80_0000) ==> #[trigger] self.spec_back(
                x,
                0,
            ) == x,
        ensures
            self.normalized(belt).len() == 1,
            self.normalized(belt)[0].0 == belt.stored_item,
            finite(belt.transport_progress) ==> self.normalized(belt)[0].1 == clamped(
                belt.transport_progress,
                0,
                0x3F80_0000,
            ),
            !finite(belt.transport_progress) ==> self.normalized(belt)[0].1 == 0,
    {
        let legacy = self.legacy_queue(belt);
        assert(legacy.len() == 1);
    }

    /// The head of a belt may go all the way unless the next building is a belt of its team
    /// that leads on in the same direction; then it keeps its distance from the last item
    /// there.
    pub proof fn law_head_keeps_its_distance(self, belt: TileView, next: TileView)
        ensures
            self.next_max(belt, None) == 0x3F80_0000,
            !one_of_the_belts(next.block) || next.team != belt.team || (next.rotation
                - belt.rotation) % 4 != 0 ==> self.next_max(belt, Some(next)) == 0x3F80_0000,
            one_of_the_belts(next.block) && next.team == belt.team && (next.rotation
                - belt.rotation) % 4 == 0 && self.normalized(next).len() > 0 && at_most(
                0,
                self.spec_gap(self.normalized(next).last().1),
            ) && at_most(self.spec_gap(self.normalized(next).last().1), 0x3F80_0000)
                ==> self.next_max(belt, Some(next)) == self.spec_gap(
                self.normalized(next).last().1,
            ),
            one_of_the_belts(next.block) && next.team == belt.team && (next.rotation
                - belt.rotation) % 4 == 0 && self.normalized(next).len() == 0 && self.spec_gap(
                0x3F80_0000,
            ) == 0x3F80_0000 ==> self.next_max(belt, Some(next)) == 0x3F80_0000,
    {
    }
}

} // verus!
