//! Plain conveyors: where an item may enter, and how the queue of a belt is kept.
//!
//! A queue is stored front first. The progress of an item is a single-precision number
//! between 0 and 1, given by its bits.

use crate::codec::signed16;
use crate::float_bits::{
    at_most, below, clamp_to, clamped, finite, is_finite, larger, le, lt, max_of, min_of,
    not_a_number, smaller, HALF, ONE, ZERO,
};
use crate::registry::{stocked, Registry};
use crate::rpc::{pack_tile, packed_tile, tile_column, tile_row, unpack_tile};
use vstd::prelude::*;

verus! {

/// How many items a plain conveyor holds.
pub const CONVEYOR_CAPACITY: usize = 3;

/// The bits of 0.4, the room that an item takes on a belt.
pub const CONVEYOR_ITEM_SPACE: u32 = 0x3ECC_CCCD;

/// The bits of 0.8, the room that two items take.
pub const TWO_ITEM_SPACES: u32 = 0x3F4C_CCCD;

/// The bits of 0.7: an item from the side needs more room than this.
pub const SIDE_ROOM: u32 = 0x3F33_3333;

/// The bits of 0.0001: items at or below it came in during this tick.
pub const FRESH_LIMIT: u32 = 0x38D1_B717;

// ---------------------------------------------------------------------------
// Tiles.

/// A building on the map, as far as transport and production read it.
pub struct DynamicTile {
    pub position: i32,
    pub block: i16,
    pub rotation: u8,
    pub team: u8,
    /// Every position the building covers; empty for a single tile.
    pub occupied: Vec<i32>,
    pub stored_item: i16,
    pub stored_amount: i32,
    /// Bits of a single-precision number.
    pub transport_progress: u32,
    /// Items and their progress, front first.
    pub conveyor_items: Vec<(i16, u32)>,
    pub inventory: Vec<(i16, i32)>,
    /// Bits of a single-precision number.
    pub production_progress: u32,
    /// The liquid in the building, or -1.
    pub stored_liquid: i16,
    /// Bits of a single-precision number.
    pub liquid_amount: u32,
}

/// The contents of a [`DynamicTile`].
#[verifier::ext_equal]
pub struct TileView {
    pub position: i32,
    pub block: i16,
    pub rotation: u8,
    pub team: u8,
    pub occupied: Seq<i32>,
    pub stored_item: i16,
    pub stored_amount: i32,
    pub transport_progress: u32,
    pub conveyor_items: Seq<(i16, u32)>,
    pub inventory: Seq<(i16, i32)>,
    pub production_progress: u32,
    pub stored_liquid: i16,
    pub liquid_amount: u32,
}

impl View for DynamicTile {
    type V = TileView;

    open spec fn view(&self) -> TileView {
        TileView {
            position: self.position,
            block: self.block,
            rotation: self.rotation,
            team: self.team,
            occupied: self.occupied@,
            stored_item: self.stored_item,
            stored_amount: self.stored_amount,
            transport_progress: self.transport_progress,
            conveyor_items: self.conveyor_items@,
            inventory: self.inventory@,
            production_progress: self.production_progress,
            stored_liquid: self.stored_liquid,
            liquid_amount: self.liquid_amount,
        }
    }
}

pub(crate) fn copy_positions(v: &Vec<i32>) -> (r: Vec<i32>)
    ensures
        r@ == v@,
{
    let mut r: Vec<i32> = Vec::new();
    let mut i: usize = 0;
    while i < v.len()
        invariant
            i <= v@.len(),
            r@ == v@.take(i as int),
        decreases v@.len() - i,
    {
        r.push(v[i]);
        i += 1;
        assert(r@ =~= v@.take(i as int));
    }
    assert(r@ =~= v@);
    r
}

pub(crate) fn copy_queue(v: &Vec<(i16, u32)>) -> (r: Vec<(i16, u32)>)
    ensures
        r@ == v@,
{
    let mut r: Vec<(i16, u32)> = Vec::new();
    let mut i: usize = 0;
    while i < v.len()
        invariant
            i <= v@.len(),
            r@ == v@.take(i as int),
        decreases v@.len() - i,
    {
        r.push((v[i].0, v[i].1));
        i += 1;
        assert(r@ =~= v@.take(i as int));
    }
    assert(r@ =~= v@);
    r
}

pub(crate) fn copy_inventory(v: &Vec<(i16, i32)>) -> (r: Vec<(i16, i32)>)
    ensures
        r@ == v@,
{
    let mut r: Vec<(i16, i32)> = Vec::new();
    let mut i: usize = 0;
    while i < v.len()
        invariant
            i <= v@.len(),
            r@ == v@.take(i as int),
        decreases v@.len() - i,
    {
        r.push((v[i].0, v[i].1));
        i += 1;
        assert(r@ =~= v@.take(i as int));
    }
    assert(r@ =~= v@);
    r
}

impl DynamicTile {
    /// A tile with the same contents.
    pub fn copy(&self) -> (r: DynamicTile)
        ensures
            r@ == self@,
    {
        DynamicTile {
            position: self.position,
            block: self.block,
            rotation: self.rotation,
            team: self.team,
            occupied: copy_positions(&self.occupied),
            stored_item: self.stored_item,
            stored_amount: self.stored_amount,
            transport_progress: self.transport_progress,
            conveyor_items: copy_queue(&self.conveyor_items),
            inventory: copy_inventory(&self.inventory),
            production_progress: self.production_progress,
            stored_liquid: self.stored_liquid,
            liquid_amount: self.liquid_amount,
        }
    }
}

/// The buildings of a map and, for those that cover several positions, which building
/// each position belongs to.
pub struct DynamicWorld {
    pub tiles: Registry<DynamicTile>,
    pub footprint: Registry<i32>,
}

/// The contents of a [`DynamicWorld`].
#[verifier::ext_equal]
pub struct WorldView {
    pub tiles: Map<i32, TileView>,
    pub footprint: Map<i32, i32>,
}

impl WorldView {
    /// The building that stands at `position`: the one registered there, or else the
    /// one whose footprint covers it.
    pub open spec fn occupant(self, position: i32) -> Option<TileView> {
        if self.tiles.dom().contains(position) {
            Some(self.tiles[position])
        } else if self.footprint.dom().contains(position) && self.tiles.dom().contains(
            self.footprint[position],
        ) {
            Some(self.tiles[self.footprint[position]])
        } else {
            None
        }
    }

    /// The world with this building under `key`.
    pub open spec fn with_tile(self, key: i32, tile: TileView) -> WorldView {
        WorldView { tiles: self.tiles.insert(key, tile), ..self }
    }
}

impl View for DynamicWorld {
    type V = WorldView;

    open spec fn view(&self) -> WorldView {
        WorldView {
            tiles: self.tiles@.map_values(|t: DynamicTile| t@),
            footprint: self.footprint@,
        }
    }
}

impl DynamicWorld {
    pub open spec fn wf(&self) -> bool {
        self.tiles.wf() && self.footprint.wf()
    }

    pub fn new() -> (r: DynamicWorld)
        ensures
            r.wf(),
            r@ == (WorldView { tiles: Map::empty(), footprint: Map::empty() }),
    {
        let r = DynamicWorld { tiles: Registry::new(), footprint: Registry::new() };
        assert(r@.tiles =~= Map::<i32, TileView>::empty());
        r
    }

    /// The building under `key`.
    pub fn tile(&self, key: i32) -> (r: Option<&DynamicTile>)
        requires
            self.wf(),
        ensures
            r is Some <==> self@.tiles.dom().contains(key),
            r matches Some(out) ==> out@ == self@.tiles[key],
    {
        self.tiles.get(key)
    }

    /// Puts a building under `key`.
    pub fn put(&mut self, key: i32, tile: DynamicTile)
        requires
            old(self).wf(),
        ensures
            final(self).wf(),
            final(self)@ == old(self)@.with_tile(key, tile@),
            old(self)@.tiles.dom().contains(key) ==> final(self).tiles.spec_keys() == old(
                self,
            ).tiles.spec_keys(),
    {
        let ghost before = self@;
        self.tiles.insert(key, tile);
        assert(self@.tiles =~= before.tiles.insert(key, tile@));
    }

    /// The building that stands at `position`.
    pub fn dynamic_at(&self, position: i32) -> (r: Option<&DynamicTile>)
        requires
            self.wf(),
        ensures
            match self@.occupant(position) {
                Some(t) => r matches Some(out) && out@ == t,
                None => r is None,
            },
    {
        match self.tile(position) {
            Some(tile) => Some(tile),
            None => match self.footprint.get(position) {
                Some(origin) => self.tile(*origin),
                None => None,
            },
        }
    }
}

/// Buildings under their keys, by their contents.
pub open spec fn tile_views(tiles: Seq<(i32, DynamicTile)>) -> Seq<(i32, TileView)> {
    Seq::new(tiles.len(), |i: int| (tiles[i].0, tiles[i].1@))
}

/// Puts saved buildings over those of the map. A building of the map that is not among them
/// stays as it is.
pub fn overlay_buildings(world: &mut DynamicWorld, tiles: Vec<(i32, DynamicTile)>)
    requires
        old(world).wf(),
    ensures
        final(world).wf(),
        final(world)@ == (WorldView {
            tiles: stocked(old(world)@.tiles, tile_views(tiles@)),
            ..old(world)@
        }),
{
    let ghost start = world@;
    let ghost views = tile_views(tiles@);
    assert(views.take(0) =~= Seq::empty());
    for entry in it: tiles
        invariant
            it.seq() == tiles@,
            views == tile_views(tiles@),
            world.wf(),
            start == old(world)@,
            world@ == (WorldView {
                tiles: stocked(start.tiles, views.take(it.index() as int)),
                ..start
            }),
    {
        let ghost i = it.index() as int;
        assert(entry == tiles@[i]);
        assert(views.take(i + 1).drop_last() =~= views.take(i));
        world.put(entry.0, entry.1);
    }
    assert(views.take(views.len() as int) =~= views);
}

/// Replaces the buildings: those that are listed stand then, and no others. Of several entries
/// of a key the last one stands.
pub fn load_buildings(world: &mut DynamicWorld, tiles: Vec<(i32, DynamicTile)>)
    requires
        old(world).wf(),
    ensures
        final(world).wf(),
        final(world)@.tiles == stocked(Map::empty(), tile_views(tiles@)),
        final(world)@.footprint == old(world)@.footprint,
{
    world.tiles = Registry::new();
    assert(world@.tiles =~= Map::<i32, TileView>::empty());
    overlay_buildings(world, tiles);
}

// ---------------------------------------------------------------------------
// Geometry.

pub open spec fn wrapped16(v: int) -> i16 {
    signed16((v % 0x1_0000) as u16)
}

/// The neighbour of `position` in direction `rotation`: right, up, left, down.
pub open spec fn neighbour(position: i32, rotation: u8) -> i32 {
    let x = tile_column(position);
    let y = tile_row(position);
    if rotation % 4 == 0 {
        packed_tile(wrapped16(x + 1), y)
    } else if rotation % 4 == 1 {
        packed_tile(x, wrapped16(y + 1))
    } else if rotation % 4 == 2 {
        packed_tile(wrapped16(x - 1), y)
    } else {
        packed_tile(x, wrapped16(y - 1))
    }
}

fn step16(v: i16, up: bool) -> (r: i16)
    ensures
        r == wrapped16(if up { v + 1 } else { v - 1 }),
{
    if up {
        if v == i16::MAX { i16::MIN } else { v + 1 }
    } else {
        if v == i16::MIN { i16::MAX } else { v - 1 }
    }
}

/// The neighbour of `position` in direction `rotation`.
pub fn offset_position(position: i32, rotation: u8) -> (r: i32)
    ensures
        r == neighbour(position, rotation),
{
    let (x, y) = unpack_tile(position);
    match rotation % 4 {
        0 => pack_tile(step16(x, true), y),
        1 => pack_tile(x, step16(y, true)),
        2 => pack_tile(step16(x, false), y),
        _ => pack_tile(x, step16(y, false)),
    }
}

/// The direction in which `to` touches `from`, if it does.
pub open spec fn relative(from: i32, to: i32) -> Option<u8> {
    let dx = tile_column(to) - tile_column(from);
    let dy = tile_row(to) - tile_row(from);
    if dx == 0 && dy == 1 {
        Some(1)
    } else if dx == 0 && dy == -1 {
        Some(3)
    } else if dx == 1 && dy == 0 {
        Some(0)
    } else if dx == -1 && dy == 0 {
        Some(2)
    } else {
        None
    }
}

/// The direction in which `to` touches `from`, if it does.
pub fn tile_relative_to(from: i32, to: i32) -> (r: Option<u8>)
    ensures
        r == relative(from, to),
{
    let (fx, fy) = unpack_tile(from);
    let (tx, ty) = unpack_tile(to);
    let dx: i32 = tx as i32 - fx as i32;
    let dy: i32 = ty as i32 - fy as i32;
    if dx == 0 && dy == 1 {
        Some(1)
    } else if dx == 0 && dy == -1 {
        Some(3)
    } else if dx == 1 && dy == 0 {
        Some(0)
    } else if dx == -1 && dy == 0 {
        Some(2)
    } else {
        None
    }
}

/// Away from the edges of the coordinate range, a neighbour lies in the direction in
/// which it was looked for.
pub proof fn law_neighbour_is_relative(position: i32, rotation: u8)
    requires
        i16::MIN < tile_column(position) < i16::MAX,
        i16::MIN < tile_row(position) < i16::MAX,
    ensures
        relative(position, neighbour(position, rotation)) == Some((rotation % 4) as u8),
{
    let x = tile_column(position);
    let y = tile_row(position);
    assert(wrapped16(x + 1) == x + 1 && wrapped16(x - 1) == x - 1);
    assert(wrapped16(y + 1) == y + 1 && wrapped16(y - 1) == y - 1);
    if rotation % 4 == 0 {
        crate::rpc::law_tile_unpacks(wrapped16(x + 1), y);
    } else if rotation % 4 == 1 {
        crate::rpc::law_tile_unpacks(x, wrapped16(y + 1));
    } else if rotation % 4 == 2 {
        crate::rpc::law_tile_unpacks(wrapped16(x - 1), y);
    } else {
        crate::rpc::law_tile_unpacks(x, wrapped16(y - 1));
    }
}

// ---------------------------------------------------------------------------
// Blocks.

pub open spec fn plain_conveyor(block: i16) -> bool {
    block == 257 || block == 258 || block == 260
}

pub open spec fn rotating_feeder(block: i16) -> bool {
    plain_conveyor(block) || block == 261 || 264 <= block <= 269
}

/// Whether the block is a plain conveyor: basic, titanium or armored.
pub fn is_plain_conveyor(block: i16) -> (r: bool)
    ensures
        r == plain_conveyor(block),
{
    matches!(block, 257 | 258 | 260)
}

/// Whether the block is item transport that turns and can feed a conveyor.
pub fn conveyor_rotates(block: i16) -> (r: bool)
    ensures
        r == rotating_feeder(block),
{
    matches!(block, 257 | 258 | 260 | 261 | 264 | 265 | 266 | 267 | 268 | 269)
}

/// The positions that a building covers.
pub open spec fn covered(tile: TileView) -> Seq<i32> {
    if tile.occupied.len() == 0 { seq![tile.position] } else { tile.occupied }
}

/// The first of the positions from which `target` can be touched.
pub open spec fn first_touching(positions: Seq<i32>, target: i32) -> Option<i32>
    decreases positions.len(),
{
    if positions.len() == 0 {
        None
    } else if relative(positions[0], target) is Some {
        Some(positions[0])
    } else {
        first_touching(positions.skip(1), target)
    }
}

/// The first position of `source` that touches `target`.
pub fn conveyor_facing_edge(source: &DynamicTile, target: i32) -> (r: Option<i32>)
    ensures
        r == first_touching(covered(source@), target),
{
    if source.occupied.len() == 0 {
        let ghost one = seq![source.position];
        assert(one.skip(1) =~= Seq::empty());
        reveal_with_fuel(first_touching, 2);
        if tile_relative_to(source.position, target).is_some() {
            return Some(source.position);
        }
        return None;
    }
    let mut i: usize = 0;
    assert(source.occupied@.skip(0) =~= source.occupied@);
    while i < source.occupied.len()
        invariant
            i <= source.occupied@.len(),
            source.occupied@.len() > 0,
            first_touching(covered(source@), target) == first_touching(
                source.occupied@.skip(i as int),
                target,
            ),
        decreases source.occupied@.len() - i,
    {
        let tile: i32 = source.occupied[i];
        if tile_relative_to(tile, target).is_some() {
            return Some(tile);
        }
        assert(source.occupied@.skip(i as int).skip(1) =~= source.occupied@.skip(i + 1));
        i += 1;
    }
    None
}

// ---------------------------------------------------------------------------
// Room on a belt.

/// The smallest progress among the items that were there before this tick, and 1 when
/// there is none. Items that came in during the tick do not count, so a burst within
/// one tick sees the belt as it was.
pub open spec fn accept_minitem(items: Seq<(i16, u32)>) -> u32
    decreases items.len(),
{
    if items.len() == 0 {
        ONE
    } else {
        let before = accept_minitem(items.drop_last());
        let progress = items.last().1;
        if below(FRESH_LIMIT, progress) { smaller(before, progress) } else { before }
    }
}

/// The smallest progress that counts when an item asks to come in.
pub fn conveyor_accept_minitem(items: &Vec<(i16, u32)>) -> (r: u32)
    ensures
        r == accept_minitem(items@),
{
    let mut least: u32 = ONE;
    let mut i: usize = 0;
    assert(items@.take(0) =~= Seq::empty());
    while i < items.len()
        invariant
            i <= items@.len(),
            least == accept_minitem(items@.take(i as int)),
        decreases items@.len() - i,
    {
        assert(items@.take(i + 1).drop_last() =~= items@.take(i as int));
        let progress: u32 = items[i].1;
        if lt(FRESH_LIMIT, progress) {
            least = min_of(least, progress);
        }
        i += 1;
    }
    assert(items@.take(i as int) =~= items@);
    least
}

/// The room that a belt shows is at most 1, at most the progress of every item that
/// counts, and reached by one of them unless it is 1.
pub proof fn law_minitem_is_least(items: Seq<(i16, u32)>)
    ensures
        at_most(accept_minitem(items), ONE),
        forall|i: int|
            0 <= i < items.len() && below(FRESH_LIMIT, (#[trigger] items[i]).1) ==> at_most(
                accept_minitem(items),
                items[i].1,
            ),
        accept_minitem(items) == ONE || exists|i: int|
            0 <= i < items.len() && (#[trigger] items[i]).1 == accept_minitem(items) && below(
                FRESH_LIMIT,
                items[i].1,
            ),
    decreases items.len(),
{
    if items.len() > 0 {
        let front = items.drop_last();
        law_minitem_is_least(front);
        assert forall|i: int|
            0 <= i < items.len() && below(FRESH_LIMIT, (#[trigger] items[i]).1) implies at_most(
            accept_minitem(items),
            items[i].1,
        ) by {
            if i < front.len() {
                assert(front[i] == items[i]);
            }
        }
        if accept_minitem(items) != ONE && accept_minitem(items) == accept_minitem(front) {
            let i = choose|i: int|
                0 <= i < front.len() && (#[trigger] front[i]).1 == accept_minitem(front)
                    && below(FRESH_LIMIT, front[i].1);
            assert(items[i] == front[i]);
        } else if accept_minitem(items) != ONE {
            assert(items[items.len() - 1].1 == accept_minitem(items));
        }
    }
}

/// Counting from the rear, the place before the first item at `j` or later that is past
/// the middle; the rear where there is none.
pub open spec fn middle_from(items: Seq<(i16, u32)>, j: int) -> int
    decreases items.len() - j,
{
    if j >= items.len() {
        0
    } else if below(HALF, items[items.len() - 1 - j].1) {
        j - 1
    } else {
        middle_from(items, j + 1)
    }
}

/// Where an item from the side goes into the queue.
pub open spec fn side_insert_index(items: Seq<(i16, u32)>) -> int {
    items.len() - middle_from(items, 1)
}

/// Where an item from the side goes into the queue.
pub fn conveyor_side_insert_index(items: &Vec<(i16, u32)>) -> (r: usize)
    ensures
        r == side_insert_index(items@),
        r <= items@.len(),
{
    let len: usize = items.len();
    let mut j: usize = 1;
    while j < len
        invariant
            len == items@.len(),
            1 <= j,
            middle_from(items@, 1) == middle_from(items@, j as int),
        decreases len - j,
    {
        if lt(HALF, items[len - 1 - j].1) {
            return len - (j - 1);
        }
        j += 1;
    }
    len
}

// ---------------------------------------------------------------------------
// Arithmetic from outside.

/// The sums that the rules of a belt need, on bits of single-precision numbers.
pub struct BeltMath<A, B, G> {
    /// `x + itemSpace`.
    pub ahead: A,
    /// `max(x - n * itemSpace, 0)` for the `n`-th item behind.
    pub back: B,
    /// `1 - max(itemSpace - x, 0)`.
    pub gap: G,
}

/// What a function returns, where it returns one thing for one argument.
pub open spec fn value1<F: Fn(u32) -> u32>(f: F, x: u32) -> u32 {
    choose|y: u32| call_ensures(f, (x,), y)
}

pub open spec fn pure1<F: Fn(u32) -> u32>(f: F) -> bool {
    &&& forall|x: u32| #[trigger] call_requires(f, (x,))
    &&& forall|x: u32, y: u32| #[trigger] call_ensures(f, (x,), y) ==> y == value1(f, x)
}

pub open spec fn value2<F: Fn(u32, u32) -> u32>(f: F, x: u32, n: u32) -> u32 {
    choose|y: u32| call_ensures(f, (x, n), y)
}

pub open spec fn pure2<F: Fn(u32, u32) -> u32>(f: F) -> bool {
    &&& forall|x: u32, n: u32| #[trigger] call_requires(f, (x, n))
    &&& forall|x: u32, n: u32, y: u32| #[trigger]
        call_ensures(f, (x, n), y) ==> y == value2(f, x, n)
}

impl<A: Fn(u32) -> u32, B: Fn(u32, u32) -> u32, G: Fn(u32) -> u32> BeltMath<A, B, G> {
    /// Each of the three takes every argument and gives one result for it.
    pub open spec fn wf(&self) -> bool {
        pure1(self.ahead) && pure2(self.back) && pure1(self.gap)
    }

    /// What sums of numbers give: numbers, and nothing ahead of where it was stepped back
    /// from.
    pub open spec fn sane(&self) -> bool {
        forall|x: u32|
            #![trigger self.spec_ahead(x)]
            #![trigger self.spec_back(x, 1)]
            #![trigger self.spec_gap(x)]
            !not_a_number(x) ==> {
                &&& !not_a_number(self.spec_ahead(x))
                &&& !not_a_number(self.spec_back(x, 1))
                &&& !not_a_number(self.spec_gap(x))
                &&& at_most(ZERO, x) ==> at_most(self.spec_back(x, 1), x)
            }
    }

    /// What sums with the item space give on top of that: more for more, and exactly one
    /// and two item spaces from the start of the belt and back.
    pub open spec fn measures_spaces(&self) -> bool {
        &&& forall|x: u32, y: u32|
            at_most(ZERO, x) && at_most(x, y) ==> at_most(
                #[trigger] self.spec_ahead(x),
                #[trigger] self.spec_ahead(y),
            )
        &&& forall|x: u32, y: u32|
            at_most(ZERO, x) && at_most(x, y) ==> at_most(
                #[trigger] self.spec_back(x, 1),
                #[trigger] self.spec_back(y, 1),
            )
        &&& self.spec_ahead(ZERO) == CONVEYOR_ITEM_SPACE
        &&& self.spec_ahead(CONVEYOR_ITEM_SPACE) == TWO_ITEM_SPACES
        &&& self.spec_back(TWO_ITEM_SPACES, 1) == CONVEYOR_ITEM_SPACE
        &&& self.spec_back(CONVEYOR_ITEM_SPACE, 1) == ZERO
    }

    pub open spec fn spec_ahead(&self, x: u32) -> u32 {
        value1(self.ahead, x)
    }

    pub open spec fn spec_back(&self, x: u32, n: u32) -> u32 {
        value2(self.back, x, n)
    }

    pub open spec fn spec_gap(&self, x: u32) -> u32 {
        value1(self.gap, x)
    }

    // -----------------------------------------------------------------------
    // Healing a queue.

    /// Makes room for the items behind: from `i` to the front, each item stands at
    /// least the item space ahead of the one behind it.
    pub open spec fn raised(&self, s: Seq<(i16, u32)>, i: int) -> Seq<(i16, u32)>
        decreases i + 1,
    {
        if i < 0 {
            s
        } else {
            self.raised(s.update(i, (s[i].0, larger(s[i].1, self.spec_ahead(s[i + 1].1)))), i - 1)
        }
    }

    /// From `i` to the rear, each item stands between 0 and what the one ahead leaves.
    pub open spec fn settled(&self, s: Seq<(i16, u32)>, i: int) -> Seq<(i16, u32)>
        decreases s.len() - i,
    {
        if i < 1 || i >= s.len() {
            s
        } else {
            self.settled(
                s.update(
                    i,
                    (
                        s[i].0,
                        clamped(s[i].1, ZERO, larger(self.spec_back(s[i - 1].1, 1), ZERO)),
                    ),
                ),
                i + 1,
            )
        }
    }

    /// A queue as the protocol wants it: at most three items, in their order, each
    /// within the belt and with its room.
    pub open spec fn healed(&self, items: Seq<(i16, u32)>) -> Seq<(i16, u32)> {
        let s = within_belt(items);
        if s.len() < 2 {
            s
        } else {
            let raised = self.raised(s, s.len() - 2);
            self.settled(raised.update(0, (raised[0].0, clamped(raised[0].1, ZERO, ONE))), 1)
        }
    }

    /// Returns a protocol-safe, front-first queue.
    ///
    /// Older checkpoints could contain progress values in the thousands because a
    /// blocked belt advanced every item except its head. The saved positions are
    /// projected onto the belt while the order is kept: the backwards pass makes room
    /// for every trailing item, the forwards pass caps the head and enforces the item
    /// space.
    pub fn sanitize_conveyor_queue(&self, items: &Vec<(i16, u32)>) -> (r: Vec<(i16, u32)>)
        requires
            self.wf(),
        ensures
            r@ == self.healed(items@),
    {
        let mut healed: Vec<(i16, u32)> = Vec::new();
        let mut i: usize = 0;
        while i < items.len() && i < CONVEYOR_CAPACITY
            invariant
                i <= items@.len(),
                i <= CONVEYOR_CAPACITY,
                healed@ == within_belt(items@).take(i as int),
            decreases items@.len() - i,
        {
            healed.push((items[i].0, start_progress(items[i].1)));
            i += 1;
            assert(healed@ =~= within_belt(items@).take(i as int));
        }
        assert(healed@ =~= within_belt(items@));
        if healed.len() < 2 {
            return healed;
        }
        let ghost start = healed@;
        let n: usize = healed.len();
        let mut at: usize = n - 1;
        while at > 0
            invariant
                self.wf(),
                at < n,
                healed@.len() == n,
                start.len() == n,
                self.raised(start, n - 2) == self.raised(healed@, at - 1),
            decreases at,
        {
            let index: usize = at - 1;
            let ahead: u32 = (self.ahead)(healed[index + 1].1);
            assert(ahead == self.spec_ahead(healed@[index + 1].1));
            let entry: (i16, u32) = (healed[index].0, max_of(healed[index].1, ahead));
            healed.set(index, entry);
            at = index;
        }
        let ghost raised = healed@;
        assert(raised == self.raised(start, n - 2));
        let head: (i16, u32) = (healed[0].0, clamp_to(healed[0].1, ZERO, ONE));
        healed.set(0, head);
        let ghost capped = healed@;
        let mut index: usize = 1;
        while index < n
            invariant
                self.wf(),
                1 <= index <= n,
                healed@.len() == n,
                capped.len() == n,
                self.settled(capped, 1) == self.settled(healed@, index as int),
            decreases n - index,
        {
            let behind: u32 = (self.back)(healed[index - 1].1, 1);
            assert(behind == self.spec_back(healed@[index - 1].1, 1));
            let limit: u32 = max_of(behind, ZERO);
            let entry: (i16, u32) = (healed[index].0, clamp_to(healed[index].1, ZERO, limit));
            healed.set(index, entry);
            index += 1;
        }
        healed
    }

    /// The queue that the shared fields of an old save stand for.
    pub open spec fn legacy_queue(&self, tile: TileView) -> Seq<(i16, u32)> {
        if tile.stored_item < 0 || tile.stored_amount <= 0 {
            Seq::empty()
        } else {
            let amount: int = if tile.stored_amount < 3 { tile.stored_amount as int } else { 3 };
            let front = start_of(tile.transport_progress);
            Seq::new(
                amount as nat,
                |i: int| (tile.stored_item, larger(self.spec_back(front, i as u32), ZERO)),
            )
        }
    }

    /// The queue of a conveyor, from its own list or from the shared fields.
    pub open spec fn normalized(&self, tile: TileView) -> Seq<(i16, u32)> {
        if tile.conveyor_items.len() > 0 {
            self.healed(tile.conveyor_items)
        } else {
            self.healed(self.legacy_queue(tile))
        }
    }

    /// Reads either the per-item representation or the legacy shared fields, and
    /// returns a front-first queue. Snapshots use it too, so that a freshly loaded old
    /// save cannot send invalid offsets before its first tick.
    pub fn normalized_conveyor_items(&self, tile: &DynamicTile) -> (r: Vec<(i16, u32)>)
        requires
            self.wf(),
        ensures
            r@ == self.normalized(tile@),
    {
        if tile.conveyor_items.len() > 0 {
            return self.sanitize_conveyor_queue(&tile.conveyor_items);
        }
        let mut legacy: Vec<(i16, u32)> = Vec::new();
        if tile.stored_item < 0 || tile.stored_amount <= 0 {
            assert(legacy@ =~= self.legacy_queue(tile@));
            let r = self.sanitize_conveyor_queue(&legacy);
            return r;
        }
        let amount: u32 = if tile.stored_amount < 3 { tile.stored_amount as u32 } else { 3 };
        let front: u32 = start_progress(tile.transport_progress);
        let mut i: u32 = 0;
        while i < amount
            invariant
                self.wf(),
                i <= amount <= 3,
                amount == self.legacy_queue(tile@).len(),
                tile.stored_item >= 0,
                tile.stored_amount > 0,
                front == start_of(tile.transport_progress),
                legacy@ == self.legacy_queue(tile@).take(i as int),
            decreases amount - i,
        {
            let behind: u32 = (self.back)(front, i);
            assert(behind == self.spec_back(front, i));
            legacy.push((tile.stored_item, max_of(behind, ZERO)));
            i += 1;
            assert(legacy@ =~= self.legacy_queue(tile@).take(i as int));
        }
        assert(legacy@ =~= self.legacy_queue(tile@));
        self.sanitize_conveyor_queue(&legacy)
    }

    /// How far the head of a belt may go, given the building in front of it: an aligned
    /// belt of the same team holds it back by the room that its last item still needs.
    pub open spec fn next_max(&self, tile: TileView, next: Option<TileView>) -> u32 {
        match next {
            Some(next) => if plain_conveyor(next.block) && next.team == tile.team && next.rotation
                % 4 == tile.rotation % 4 {
                let queue = self.normalized(next);
                let last = if queue.len() == 0 { ONE } else { queue.last().1 };
                clamped(self.spec_gap(last), ZERO, ONE)
            } else {
                ONE
            },
            None => ONE,
        }
    }

    /// How far the head of a belt may go.
    pub fn aligned_conveyor_next_max(&self, world: &DynamicWorld, tile: &DynamicTile) -> (r: u32)
        requires
            self.wf(),
            world.wf(),
        ensures
            r == self.next_max(
                tile@,
                world@.occupant(neighbour(tile.position, tile.rotation)),
            ),
    {
        let output: i32 = offset_position(tile.position, tile.rotation);
        let next = match world.dynamic_at(output) {
            Some(next) => next,
            None => return ONE,
        };
        if !is_plain_conveyor(next.block) || next.team != tile.team || next.rotation % 4
            != tile.rotation % 4 {
            return ONE;
        }
        let queue = self.normalized_conveyor_items(next);
        let last: u32 = if queue.len() == 0 { ONE } else { queue[queue.len() - 1].1 };
        let gap: u32 = (self.gap)(last);
        assert(gap == self.spec_gap(last));
        clamp_to(gap, ZERO, ONE)
    }
}

/// A saved progress on the belt: 0 where it is no finite number.
pub open spec fn start_of(progress: u32) -> u32 {
    if finite(progress) { clamped(progress, ZERO, ONE) } else { ZERO }
}

fn start_progress(progress: u32) -> (r: u32)
    ensures
        r == start_of(progress),
{
    if is_finite(progress) { clamp_to(progress, ZERO, ONE) } else { ZERO }
}

/// The first three items, each put on the belt.
pub open spec fn within_belt(items: Seq<(i16, u32)>) -> Seq<(i16, u32)> {
    Seq::new(
        if items.len() < 3 { items.len() } else { 3 },
        |i: int| (items[i].0, start_of(items[i].1)),
    )
}

// ---------------------------------------------------------------------------
// Letting an item in.

/// How far the direction of a source is from the direction of a belt.
pub open spec fn turn(rel: u8, rotation: u8) -> int {
    let d = rel - rotation % 4;
    if d < 0 { -d } else { d }
}

/// From which side an item comes in.
#[derive(Clone, Copy, Debug, PartialEq, Eq, Structural)]
pub enum Entry {
    Rear,
    Side,
}

/// Whether a belt with this queue lets an item in, and from which side.
///
/// A full belt lets nothing in. Without a source the belt needs the item space. A source
/// that turns is refused where the belt feeds it. From behind the belt needs the item
/// space, from the side more than that; an armored belt takes side items from plain
/// conveyors only.
pub open spec fn entry(
    belt: TileView,
    queue: Seq<(i16, u32)>,
    source: Option<TileView>,
    next: Option<TileView>,
) -> Option<Entry> {
    let room = accept_minitem(queue);
    let rear_room = at_most(CONVEYOR_ITEM_SPACE, room);
    let side_room = below(SIDE_ROOM, room);
    if !plain_conveyor(belt.block) || queue.len() >= 3 {
        None
    } else {
        match source {
            None => if rear_room { Some(Entry::Rear) } else { None },
            Some(source) => {
                let facing = first_touching(covered(source), belt.position);
                if rotating_feeder(source.block) && (next matches Some(n) && n.position
                    == source.position) {
                    None
                } else if facing is None {
                    None
                } else {
                    let rel = relative(facing.unwrap(), belt.position).unwrap();
                    let turn = turn(rel, belt.rotation);
                    if belt.block == 260 && !plain_conveyor(source.block) && turn != 0 {
                        None
                    } else if turn == 0 && rear_room {
                        Some(Entry::Rear)
                    } else if turn % 2 == 1 && side_room {
                        Some(Entry::Side)
                    } else {
                        None
                    }
                }
            },
        }
    }
}

/// The queue with the item in it: at the rear with progress 0, or from the side in the
/// middle of the belt with progress one half.
pub open spec fn entered(queue: Seq<(i16, u32)>, item: i16, entry: Entry) -> Seq<(i16, u32)> {
    match entry {
        Entry::Rear => queue.push((item, ZERO)),
        Entry::Side => queue.insert(side_insert_index(queue), (item, HALF)),
    }
}

/// The tile with this queue; the shared fields follow its head.
pub open spec fn with_queue(tile: TileView, queue: Seq<(i16, u32)>) -> TileView {
    TileView {
        conveyor_items: queue,
        stored_item: if queue.len() == 0 { -1i16 } else { queue[0].0 },
        stored_amount: if queue.len() > i32::MAX { i32::MAX } else { queue.len() as i32 },
        transport_progress: if queue.len() == 0 { ZERO } else { queue[0].1 },
        ..tile
    }
}

/// Decides on the entry of an item; see [`entry`].
pub fn conveyor_entry(
    belt: &DynamicTile,
    queue: &Vec<(i16, u32)>,
    source: Option<&DynamicTile>,
    next: Option<&DynamicTile>,
) -> (r: Option<Entry>)
    ensures
        r == entry(
            belt@,
            queue@,
            match source {
                Some(t) => Some(t@),
                None => None,
            },
            match next {
                Some(t) => Some(t@),
                None => None,
            },
        ),
{
    if !is_plain_conveyor(belt.block) || queue.len() >= CONVEYOR_CAPACITY {
        return None;
    }
    let room: u32 = conveyor_accept_minitem(queue);
    let rear_room: bool = le(CONVEYOR_ITEM_SPACE, room);
    let source = match source {
        None => return if rear_room { Some(Entry::Rear) } else { None },
        Some(source) => source,
    };
    if conveyor_rotates(source.block) {
        if let Some(next) = next {
            if next.position == source.position {
                return None;
            }
        }
    }
    let facing: i32 = match conveyor_facing_edge(source, belt.position) {
        Some(facing) => facing,
        None => return None,
    };
    proof {
        lemma_touching_touches(covered(source@), belt.position);
    }
    let rel: u8 = match tile_relative_to(facing, belt.position) {
        Some(rel) => rel,
        None => return None,
    };
    let ahead: u8 = belt.rotation % 4;
    let turn: u8 = if rel < ahead { ahead - rel } else { rel - ahead };
    let rear_ok: bool = turn == 0 && rear_room;
    let side_ok: bool = turn % 2 == 1 && lt(SIDE_ROOM, room);
    if !rear_ok && !side_ok {
        return None;
    }
    // Armored belts take side items from conveyors only.
    if belt.block == 260 && !is_plain_conveyor(source.block) && rel != ahead {
        return None;
    }
    if rear_ok { Some(Entry::Rear) } else { Some(Entry::Side) }
}

proof fn lemma_touching_touches(positions: Seq<i32>, target: i32)
    ensures
        first_touching(positions, target) matches Some(p) ==> relative(p, target) is Some
            && positions.contains(p),
    decreases positions.len(),
{
    if positions.len() > 0 && relative(positions[0], target) is None {
        lemma_touching_touches(positions.skip(1), target);
        if let Some(p) = first_touching(positions.skip(1), target) {
            let i = choose|i: int| 0 <= i < positions.skip(1).len() && positions.skip(1)[i] == p;
            assert(positions[i + 1] == p);
        }
    }
}

impl DynamicTile {
    /// Puts `queue` on the tile; the shared fields follow its head.
    pub fn set_queue(&mut self, queue: Vec<(i16, u32)>)
        ensures
            final(self)@ == with_queue(old(self)@, queue@),
    {
        if queue.len() == 0 {
            self.stored_item = -1;
            self.transport_progress = ZERO;
        } else {
            self.stored_item = queue[0].0;
            self.transport_progress = queue[0].1;
        }
        self.stored_amount =
        if queue.len() > 0x7FFF_FFFF { i32::MAX } else { queue.len() as i32 };
        self.conveyor_items = queue;
    }
}

/// The queue that a belt shows to an item that asks to come in.
pub open spec fn asked_queue<A, B, G>(math: BeltMath<A, B, G>, belt: TileView) -> Seq<
    (i16, u32),
> where A: Fn(u32) -> u32, B: Fn(u32, u32) -> u32, G: Fn(u32) -> u32 {
    if belt.conveyor_items.len() == 0 { math.normalized(belt) } else { belt.conveyor_items }
}

/// Which queue the belt under `target` has after an item came to it, if it takes it.
pub open spec fn queue_after_entry<A, B, G>(
    math: BeltMath<A, B, G>,
    world: WorldView,
    target: i32,
    item: i16,
    source: Option<i32>,
) -> Option<Seq<(i16, u32)>> where
    A: Fn(u32) -> u32,
    B: Fn(u32, u32) -> u32,
    G: Fn(u32) -> u32,
 {
    if !world.tiles.dom().contains(target) {
        None
    } else {
        let belt = world.tiles[target];
        let queue = asked_queue(math, belt);
        let found = match source {
            Some(key) => world.occupant(key),
            None => None,
        };
        if source is Some && found is None {
            None
        } else {
            match entry(
                belt,
                queue,
                found,
                world.occupant(neighbour(belt.position, belt.rotation)),
            ) {
                Some(side) => Some(entered(queue, item, side)),
                None => None,
            }
        }
    }
}

/// Offers `item` to the belt under `target_key`, from the building at `source` or from
/// nowhere. The belt takes it or nothing changes.
pub fn accept_plain_conveyor_item<A, B, G>(
    math: &BeltMath<A, B, G>,
    world: &mut DynamicWorld,
    target_key: i32,
    item: i16,
    source: Option<i32>,
) -> (accepted: bool) where
    A: Fn(u32) -> u32,
    B: Fn(u32, u32) -> u32,
    G: Fn(u32) -> u32,

    requires
        math.wf(),
        old(world).wf(),
    ensures
        final(world).wf(),
        final(world).tiles.spec_keys() == old(world).tiles.spec_keys(),
        match queue_after_entry(*math, old(world)@, target_key, item, source) {
            None => !accepted && final(world)@ == old(world)@,
            Some(queue) => accepted && final(world)@ == old(world)@.with_tile(
                target_key,
                with_queue(old(world)@.tiles[target_key], queue),
            ),
        },
{
    let belt = match world.tile(target_key) {
        Some(belt) => belt,
        None => return false,
    };
    if !is_plain_conveyor(belt.block) {
        return false;
    }
    let mut queue = if belt.conveyor_items.len() == 0 {
        math.normalized_conveyor_items(belt)
    } else {
        copy_queue(&belt.conveyor_items)
    };
    let found = match source {
        Some(key) => match world.dynamic_at(key) {
            Some(tile) => Some(tile),
            None => return false,
        },
        None => None,
    };
    let output: i32 = offset_position(belt.position, belt.rotation);
    let next = world.dynamic_at(output);
    let side = match conveyor_entry(belt, &queue, found, next) {
        Some(side) => side,
        None => return false,
    };
    match side {
        Entry::Rear => queue.push((item, ZERO)),
        Entry::Side => {
            let index: usize = conveyor_side_insert_index(&queue);
            queue.insert(index, (item, HALF));
        },
    }
    let mut after = belt.copy();
    after.set_queue(queue);
    world.put(target_key, after);
    true
}

// ---------------------------------------------------------------------------
// Laws.

/// A belt that takes an item holds one more and never more than three; the items that
/// were on it keep their order and their places on the belt.
pub proof fn law_entry_keeps_the_queue(queue: Seq<(i16, u32)>, item: i16, side: Entry)
    requires
        queue.len() < 3,
    ensures
        entered(queue, item, side).len() == queue.len() + 1,
        exists|at: int|
            0 <= at <= queue.len() && (#[trigger] entered(queue, item, side)[at]).0 == item
                && entered(queue, item, side).remove(at) == queue,
{
    let out = entered(queue, item, side);
    lemma_middle_in_range(queue, 1);
    let at: int = match side {
        Entry::Rear => queue.len() as int,
        Entry::Side => side_insert_index(queue),
    };
    assert(out[at].0 == item);
    assert(out.remove(at) =~= queue);
}

proof fn lemma_middle_in_range(items: Seq<(i16, u32)>, j: int)
    requires
        j >= 1,
    ensures
        0 <= middle_from(items, j) <= items.len(),
    decreases items.len() - j,
{
    if j < items.len() && !below(HALF, items[items.len() - 1 - j].1) {
        lemma_middle_in_range(items, j + 1);
    }
}

/// No belt takes an item while three are on it, and none takes one from a building that
/// it feeds itself, if that building turns.
pub proof fn law_illegal_crossings_are_refused(
    belt: TileView,
    queue: Seq<(i16, u32)>,
    source: TileView,
    next: Option<TileView>,
)
    ensures
        queue.len() >= 3 ==> entry(belt, queue, Some(source), next) is None,
        rotating_feeder(source.block) && (next matches Some(n) && n.position == source.position)
            ==> entry(belt, queue, Some(source), next) is None,
        first_touching(covered(source), belt.position) is None ==> entry(
            belt,
            queue,
            Some(source),
            next,
        ) is None,
{
}

/// Nothing comes in from the front: a single building that touches the belt from the
/// direction opposite to its own is refused.
pub proof fn law_front_is_refused(
    belt: TileView,
    queue: Seq<(i16, u32)>,
    source: TileView,
    next: Option<TileView>,
)
    requires
        first_touching(covered(source), belt.position) matches Some(p) && relative(
            p,
            belt.position,
        ) matches Some(rel) && turn(rel, belt.rotation) == 2,
    ensures
        entry(belt, queue, Some(source), next) is None,
{
}

impl<A: Fn(u32) -> u32, B: Fn(u32, u32) -> u32, G: Fn(u32) -> u32> BeltMath<A, B, G> {
    proof fn lemma_raised_keeps_items(&self, s: Seq<(i16, u32)>, i: int)
        requires
            i < s.len() - 1 || i < 0,
        ensures
            self.raised(s, i).len() == s.len(),
            forall|k: int| 0 <= k < s.len() ==> (#[trigger] self.raised(s, i)[k]).0 == s[k].0,
        decreases i + 1,
    {
        if i >= 0 {
            let t = s.update(i, (s[i].0, larger(s[i].1, self.spec_ahead(s[i + 1].1))));
            self.lemma_raised_keeps_items(t, i - 1);
        }
    }

    proof fn lemma_settled_keeps_items(&self, s: Seq<(i16, u32)>, i: int)
        ensures
            self.settled(s, i).len() == s.len(),
            forall|k: int| 0 <= k < s.len() ==> (#[trigger] self.settled(s, i)[k]).0 == s[k].0,
            forall|k: int| 0 <= k < i && k < s.len() ==> #[trigger] self.settled(s, i)[k] == s[k],
        decreases s.len() - i,
    {
        if 1 <= i < s.len() {
            let t = s.update(
                i,
                (s[i].0, clamped(s[i].1, ZERO, larger(self.spec_back(s[i - 1].1, 1), ZERO))),
            );
            self.lemma_settled_keeps_items(t, i + 1);
        }
    }

    /// Healing drops what is beyond the capacity and never reorders.
    pub proof fn law_healing_keeps_order(&self, items: Seq<(i16, u32)>)
        ensures
            self.healed(items).len() == if items.len() < 3 { items.len() } else { 3 },
            forall|i: int|
                0 <= i < self.healed(items).len() ==> (#[trigger] self.healed(items)[i]).0
                    == items[i].0,
    {
        let s = within_belt(items);
        if s.len() >= 2 {
            self.lemma_raised_keeps_items(s, s.len() - 2);
            let raised = self.raised(s, s.len() - 2);
            let capped = raised.update(0, (raised[0].0, clamped(raised[0].1, ZERO, ONE)));
            self.lemma_settled_keeps_items(capped, 1);
            assert forall|i: int| 0 <= i < self.healed(items).len() implies (
            #[trigger] self.healed(items)[i]).0 == items[i].0 by {
                assert(raised[i].0 == s[i].0);
                assert(capped[i].0 == raised[i].0);
            }
        }
    }

    proof fn lemma_raised_are_numbers(&self, s: Seq<(i16, u32)>, i: int)
        requires
            i < s.len() - 1 || i < 0,
            self.sane(),
            forall|k: int| 0 <= k < s.len() ==> !not_a_number((#[trigger] s[k]).1),
        ensures
            forall|k: int|
                0 <= k < s.len() ==> !not_a_number((#[trigger] self.raised(s, i)[k]).1),
        decreases i + 1,
    {
        if i >= 0 {
            let t = s.update(i, (s[i].0, larger(s[i].1, self.spec_ahead(s[i + 1].1))));
            self.lemma_raised_are_numbers(t, i - 1);
            assert(self.raised(s, i) == self.raised(t, i - 1));
            assert(t.len() == s.len());
        }
    }

    proof fn lemma_settled_is_orderly(&self, s: Seq<(i16, u32)>, i: int)
        requires
            1 <= i <= s.len(),
            self.sane(),
            forall|k: int| 0 <= k < s.len() ==> !not_a_number((#[trigger] s[k]).1),
            orderly(s, i),
            self.spaced(s, i),
        ensures
            orderly(self.settled(s, i), s.len() as int),
            self.spaced(self.settled(s, i), s.len() as int),
            self.settled(s, i).len() == s.len(),
        decreases s.len() - i,
    {
        if i < s.len() {
            let limit = larger(self.spec_back(s[i - 1].1, 1), ZERO);
            let t = s.update(i, (s[i].0, clamped(s[i].1, ZERO, limit)));
            assert(at_most(limit, s[i - 1].1));
            assert(at_most(t[i].1, limit) && at_most(ZERO, t[i].1));
            assert forall|a: int, b: int| 0 <= a <= b < i + 1 implies at_most(
                (#[trigger] t[b]).1,
                (#[trigger] t[a]).1,
            ) by {
                if b == i && a < i {
                    assert(at_most(s[i - 1].1, s[a].1));
                }
            }
            assert(orderly(t, i + 1));
            assert forall|k: int| 0 < k < i + 1 implies self.has_room(t, k) by {
                if k < i {
                    assert(self.has_room(s, k));
                }
            }
            self.lemma_settled_is_orderly(t, i + 1);
        }
    }

    /// Whether the item at `k` leaves its room to the one ahead of it.
    pub open spec fn has_room(&self, s: Seq<(i16, u32)>, k: int) -> bool {
        at_most(s[k].1, larger(self.spec_back(s[k - 1].1, 1), ZERO))
    }

    /// Whether the first `i` items leave their room to each other.
    pub open spec fn spaced(&self, s: Seq<(i16, u32)>, i: int) -> bool {
        forall|k: int| 0 < k < i ==> #[trigger] self.has_room(s, k)
    }

    /// Every item of a healed queue is on the belt, none is ahead of the one before it, and
    /// each leaves its room.
    pub proof fn law_healed_queue_is_on_the_belt(&self, items: Seq<(i16, u32)>)
        requires
            self.sane(),
        ensures
            forall|i: int|
                0 <= i < self.healed(items).len() ==> at_most(
                    ZERO,
                    (#[trigger] self.healed(items)[i]).1,
                ) && at_most(self.healed(items)[i].1, ONE),
            forall|i: int, j: int|
                0 <= i <= j < self.healed(items).len() ==> at_most(
                    (#[trigger] self.healed(items)[j]).1,
                    (#[trigger] self.healed(items)[i]).1,
                ),
            self.spaced(self.healed(items), self.healed(items).len() as int),
    {
        let s = within_belt(items);
        let n = s.len() as int;
        assert forall|k: int| 0 <= k < n implies !not_a_number((#[trigger] s[k]).1) && at_most(
            ZERO,
            s[k].1,
        ) && at_most(s[k].1, ONE) by {}
        if n >= 2 {
            self.lemma_raised_keeps_items(s, n - 2);
            self.lemma_raised_are_numbers(s, n - 2);
            let raised = self.raised(s, n - 2);
            let capped = raised.update(0, (raised[0].0, clamped(raised[0].1, ZERO, ONE)));
            assert(orderly(capped, 1));
            self.lemma_settled_is_orderly(capped, 1);
            assert(self.healed(items) == self.settled(capped, 1));
        } else {
            assert(orderly(s, n));
        }
        let out = self.healed(items);
        assert(orderly(out, out.len() as int));
    }
}

impl<A: Fn(u32) -> u32, B: Fn(u32, u32) -> u32, G: Fn(u32) -> u32> BeltMath<A, B, G> {
    /// Healing leaves every item room for all that are behind it: with one item behind it,
    /// an item stands at least one item space from the start of the belt, with two behind it
    /// at least two. So an item is never pushed below the start to keep its distance: each
    /// stands an item space behind the one ahead.
    pub proof fn law_healed_items_have_room_behind(&self, items: Seq<(i16, u32)>)
        requires
            self.sane(),
            self.measures_spaces(),
        ensures
            forall|i: int|
                0 <= i < self.healed(items).len() - 1 ==> at_most(
                    CONVEYOR_ITEM_SPACE,
                    (#[trigger] self.healed(items)[i]).1,
                ),
            self.healed(items).len() == 3 ==> at_most(TWO_ITEM_SPACES, self.healed(items)[0].1),
            forall|i: int|
                0 < i < self.healed(items).len() ==> at_most(
                    (#[trigger] self.healed(items)[i]).1,
                    self.spec_back(self.healed(items)[i - 1].1, 1),
                ),
    {
        self.law_healed_queue_is_on_the_belt(items);
        self.law_healing_keeps_order(items);
        reveal_with_fuel(BeltMath::raised, 3);
        reveal_with_fuel(BeltMath::settled, 3);
        let s = within_belt(items);
        let out = self.healed(items);
        let n = s.len() as int;
        if n == 2 {
            let s0 = larger(s[0].1, self.spec_ahead(s[1].1));
            assert(at_most(self.spec_ahead(ZERO), self.spec_ahead(s[1].1)));
            assert(at_most(CONVEYOR_ITEM_SPACE, s0));
            let raised = self.raised(s, 0);
            assert(raised[0].1 == s0);
            let capped = raised.update(0, (raised[0].0, clamped(s0, ZERO, ONE)));
            self.lemma_settled_keeps_items(capped, 1);
            assert(out[0].1 == clamped(s0, ZERO, ONE));
        } else if n == 3 {
            let s1 = larger(s[1].1, self.spec_ahead(s[2].1));
            assert(at_most(self.spec_ahead(ZERO), self.spec_ahead(s[2].1)));
            assert(at_most(CONVEYOR_ITEM_SPACE, s1));
            let s0 = larger(s[0].1, self.spec_ahead(s1));
            assert(at_most(self.spec_ahead(CONVEYOR_ITEM_SPACE), self.spec_ahead(s1)));
            assert(at_most(TWO_ITEM_SPACES, s0));
            let raised = self.raised(s, 1);
            assert(raised[0].1 == s0 && raised[1].1 == s1);
            let h0 = clamped(s0, ZERO, ONE);
            let capped = raised.update(0, (raised[0].0, h0));
            let limit = larger(self.spec_back(h0, 1), ZERO);
            assert(at_most(self.spec_back(TWO_ITEM_SPACES, 1), self.spec_back(h0, 1)));
            let next = capped.update(1, (capped[1].0, clamped(s1, ZERO, limit)));
            assert(self.settled(capped, 1) == self.settled(next, 2));
            self.lemma_settled_keeps_items(next, 2);
            assert(out[0].1 == h0);
            assert(out[1].1 == clamped(s1, ZERO, limit));
        }
        assert forall|i: int| 0 < i < out.len() implies at_most(
            (#[trigger] out[i]).1,
            self.spec_back(out[i - 1].1, 1),
        ) by {
            assert(self.has_room(out, i));
            let ahead = out[i - 1].1;
            assert(at_most(CONVEYOR_ITEM_SPACE, ahead));
            assert(at_most(self.spec_back(CONVEYOR_ITEM_SPACE, 1), self.spec_back(ahead, 1)));
        }
    }

    proof fn lemma_raised_changes_nothing(&self, s: Seq<(i16, u32)>, i: int)
        requires
            i < s.len() - 1,
            forall|k: int| 0 < k < s.len() ==> #[trigger] self.keeps_behind(s, k),
        ensures
            self.raised(s, i) == s,
        decreases i + 1,
    {
        if i >= 0 {
            assert(self.keeps_behind(s, i + 1));
            let t = s.update(i, (s[i].0, larger(s[i].1, self.spec_ahead(s[i + 1].1))));
            assert(t =~= s);
            self.lemma_raised_changes_nothing(s, i - 1);
        }
    }

    proof fn lemma_settled_changes_nothing(&self, s: Seq<(i16, u32)>, i: int)
        requires
            forall|k: int| 0 <= k < s.len() ==> at_most(ZERO, (#[trigger] s[k]).1),
            self.spaced(s, s.len() as int),
        ensures
            self.settled(s, i) == s,
        decreases s.len() - i,
    {
        if 1 <= i < s.len() {
            assert(self.has_room(s, i));
            let t = s.update(
                i,
                (s[i].0, clamped(s[i].1, ZERO, larger(self.spec_back(s[i - 1].1, 1), ZERO))),
            );
            assert(at_most(ZERO, s[i].1));
            assert(t =~= s);
            self.lemma_settled_changes_nothing(s, i + 1);
        }
    }

    /// Whether the item at `k`, an item space further, is not beyond the one ahead of it.
    pub open spec fn keeps_behind(&self, s: Seq<(i16, u32)>, k: int) -> bool {
        at_most(self.spec_ahead(s[k].1), s[k - 1].1)
    }

    /// A queue that needs no healing comes back as it was: at most three items, all on the
    /// belt, each an item space behind the one ahead of it, measured forwards and backwards.
    pub proof fn law_orderly_queue_is_unchanged(&self, items: Seq<(i16, u32)>)
        requires
            items.len() <= 3,
            forall|k: int|
                0 <= k < items.len() ==> at_most(ZERO, (#[trigger] items[k]).1) && at_most(
                    items[k].1,
                    ONE,
                ),
            forall|k: int| 0 < k < items.len() ==> #[trigger] self.keeps_behind(items, k),
            self.spaced(items, items.len() as int),
        ensures
            self.healed(items) == items,
    {
        let s = within_belt(items);
        assert forall|k: int| 0 <= k < s.len() implies s[k] == items[k] by {
            assert(at_most(ZERO, items[k].1) && at_most(items[k].1, ONE));
        }
        assert(s =~= items);
        if s.len() >= 2 {
            self.lemma_raised_changes_nothing(s, s.len() - 2);
            assert(s.update(0, (s[0].0, clamped(s[0].1, ZERO, ONE))) =~= s);
            self.lemma_settled_changes_nothing(s, 1);
        }
    }

    /// Healing twice is healing once, wherever rounding does not put an item, an item space
    /// further, beyond the one ahead of it.
    pub proof fn law_healing_twice_is_healing_once(&self, items: Seq<(i16, u32)>)
        requires
            self.sane(),
            forall|k: int|
                0 < k < self.healed(items).len() ==> #[trigger] self.keeps_behind(
                    self.healed(items),
                    k,
                ),
        ensures
            self.healed(self.healed(items)) == self.healed(items),
    {
        self.law_healed_queue_is_on_the_belt(items);
        self.law_healing_keeps_order(items);
        self.law_orderly_queue_is_unchanged(self.healed(items));
    }
}

/// The first `i` items are on the belt and none is ahead of the one before it.
spec fn orderly(s: Seq<(i16, u32)>, i: int) -> bool {
    &&& forall|k: int|
        0 <= k < i ==> at_most(ZERO, (#[trigger] s[k]).1) && at_most(s[k].1, ONE)
    &&& forall|a: int, b: int|
        0 <= a <= b < i ==> at_most((#[trigger] s[b]).1, (#[trigger] s[a]).1)
}

} // verus!
