//! Prebuilt buildings of a map: factories that work from the core of their team, and
//! drills that feed it; and the tick of a drill on the map.

use crate::conveyor::{
    copy_inventory, copy_positions, pure1, value1, DynamicTile, DynamicWorld, TileView, WorldView,
};
use crate::float_bits::{
    at_most, below, clamp_to, clamped, larger, le, lt, max_of, min_of, smaller, ONE, ZERO,
};
use crate::logistics::{given, Delivery, Handoff, Step, Taker};
use crate::production::{
    craft_cycles, crafted, deposit_core_items, deposited, held, inventory_count, sound,
    FactoryRecipe, Output, RecipeView,
};
use crate::registry::Registry;
use vstd::prelude::*;

verus! {

// ---------------------------------------------------------------------------
// State.

/// A building that came with the map.
pub struct BaseBuilding {
    pub position: i32,
    pub block: i16,
    pub team: u8,
    pub occupied: Vec<i32>,
    pub inventory: Vec<(i16, i32)>,
}

/// The contents of a [`BaseBuilding`].
#[verifier::ext_equal]
pub struct BaseView {
    pub position: i32,
    pub block: i16,
    pub team: u8,
    pub occupied: Seq<i32>,
    pub inventory: Seq<(i16, i32)>,
}

impl View for BaseBuilding {
    type V = BaseView;

    open spec fn view(&self) -> BaseView {
        BaseView {
            position: self.position,
            block: self.block,
            team: self.team,
            occupied: self.occupied@,
            inventory: self.inventory@,
        }
    }
}

/// The buildings of a map, those that came with it, and the item counts of the cores by
/// team. A core holds at most `capacity` of an item through deliveries.
pub struct Economy {
    pub world: DynamicWorld,
    pub base: Registry<BaseBuilding>,
    pub cores: Registry<Vec<i32>>,
    pub capacity: i32,
}

/// The contents of an [`Economy`].
#[verifier::ext_equal]
pub struct EconomyView {
    pub world: WorldView,
    pub base: Map<i32, BaseView>,
    pub cores: Map<i32, Seq<i32>>,
    pub capacity: i32,
}

impl View for Economy {
    type V = EconomyView;

    open spec fn view(&self) -> EconomyView {
        EconomyView {
            world: self.world@,
            base: self.base@.map_values(|b: BaseBuilding| b@),
            cores: self.cores@.map_values(|c: Vec<i32>| c@),
            capacity: self.capacity,
        }
    }
}

impl EconomyView {
    /// The core of a team, empty where there is none.
    pub open spec fn core_of(self, team: u8) -> Seq<i32> {
        if self.cores.dom().contains(team as i32) { self.cores[team as i32] } else { Seq::empty() }
    }

    /// The cores with that of one team replaced, where the team has one.
    pub open spec fn with_core(self, team: u8, core: Seq<i32>) -> EconomyView {
        if self.cores.dom().contains(team as i32) {
            EconomyView { cores: self.cores.insert(team as i32, core), ..self }
        } else {
            self
        }
    }
}

impl Economy {
    /// The registries are in order.
    pub open spec fn ready(&self) -> bool {
        self.world.wf() && self.base.wf() && self.cores.wf()
    }

    /// A map with nothing on it.
    pub fn new(capacity: i32) -> (r: Economy)
        ensures
            r.ready(),
            r@ == (EconomyView {
                world: WorldView { tiles: Map::empty(), footprint: Map::empty() },
                base: Map::empty(),
                cores: Map::empty(),
                capacity,
            }),
    {
        let r = Economy {
            world: DynamicWorld::new(),
            base: Registry::new(),
            cores: Registry::new(),
            capacity,
        };
        assert(r@.base =~= Map::<i32, BaseView>::empty());
        assert(r@.cores =~= Map::<i32, Seq<i32>>::empty());
        r
    }

    fn copy_of_core(&self, team: u8) -> (r: Vec<i32>)
        requires
            self.ready(),
        ensures
            r@ == self@.core_of(team),
    {
        match self.cores.get(team as i32) {
            Some(core) => copy_positions(core),
            None => Vec::new(),
        }
    }

    fn put_core(&mut self, team: u8, core: Vec<i32>)
        requires
            old(self).ready(),
        ensures
            final(self).ready(),
            final(self)@ == old(self)@.with_core(team, core@),
            final(self).world == old(self).world,
            final(self).base == old(self).base,
    {
        let ghost before = self@;
        if self.cores.contains_key(team as i32) {
            self.cores.insert(team as i32, core);
            assert(self@.cores =~= before.cores.insert(team as i32, core@));
        }
        assert(self@ =~= before.with_core(team, core@));
    }
}

// ---------------------------------------------------------------------------
// Factories.

/// The recipes by block.
pub struct RecipeBook {
    pub recipes: Vec<(i16, FactoryRecipe)>,
}

impl View for RecipeBook {
    type V = Seq<(i16, RecipeView)>;

    open spec fn view(&self) -> Seq<(i16, RecipeView)> {
        Seq::new(self.recipes@.len(), |i: int| (self.recipes@[i].0, self.recipes@[i].1@))
    }
}

/// The first recipe for a block.
pub open spec fn recipe_for(book: Seq<(i16, RecipeView)>, block: i16) -> Option<RecipeView>
    decreases book.len(),
{
    if book.len() == 0 {
        None
    } else if book[0].0 == block {
        Some(book[0].1)
    } else {
        recipe_for(book.skip(1), block)
    }
}

pub open spec fn book_wf(book: Seq<(i16, RecipeView)>) -> bool {
    forall|i: int| 0 <= i < book.len() ==> (#[trigger] book[i]).1.wf()
}

impl RecipeBook {
    /// The first recipe for a block.
    pub fn factory_recipe(&self, block: i16) -> (r: Option<&FactoryRecipe>)
        ensures
            match recipe_for(self@, block) {
                Some(v) => r matches Some(out) && out@ == v,
                None => r is None,
            },
            book_wf(self@) ==> (r matches Some(out) ==> out@.wf()),
    {
        let mut i: usize = 0;
        assert(self@.skip(0) =~= self@);
        while i < self.recipes.len()
            invariant
                i <= self.recipes@.len(),
                recipe_for(self@, block) == recipe_for(self@.skip(i as int), block),
            decreases self.recipes@.len() - i,
        {
            assert(self@.skip(i as int)[0] == self@[i as int]);
            assert(self@.skip(i as int).skip(1) =~= self@.skip(i + 1));
            if self.recipes[i].0 == block {
                return Some(&self.recipes[i].1);
            }
            i += 1;
        }
        None
    }
}

/// A factory: its block, team and inventory, and where its output goes. A building on the
/// map keeps it; one that only came with the map delivers to the core.
pub open spec fn factory_at(e: EconomyView, key: i32) -> Option<
    (i16, u8, Seq<(i16, i32)>, Output),
> {
    if e.world.tiles.dom().contains(key) {
        let t = e.world.tiles[key];
        Some((t.block, t.team, t.inventory, Output::Own))
    } else if e.base.dom().contains(key) {
        let b = e.base[key];
        Some((b.block, b.team, b.inventory, Output::Core(e.capacity)))
    } else {
        None
    }
}

/// The inventory of the factory under `key` lists an item once and holds no less than
/// nothing.
pub open spec fn in_order(e: EconomyView, key: i32) -> bool {
    match factory_at(e, key) {
        Some((block, team, inventory, to)) => sound(inventory),
        None => true,
    }
}

/// Every factory that is due a cycle has its inventory in order.
pub open spec fn due_in_order(e: EconomyView, due: Map<i32, u32>) -> bool {
    forall|key: i32| #[trigger] due.dom().contains(key) && due[key] > 0 ==> in_order(e, key)
}

/// How many crafts fit before the count of the output in the building's own inventory runs
/// out of its range.
pub open spec fn room_for(inventory: Seq<(i16, i32)>, recipe: RecipeView) -> int {
    (i32::MAX - held(inventory, recipe.output.0)) / recipe.output.1 as int
}

/// How many of the `allowed` cycles a factory may use. Only one that keeps its output can run
/// out of room; what the core cannot take is lost.
pub open spec fn cycles_for(
    inventory: Seq<(i16, i32)>,
    recipe: RecipeView,
    to: Output,
    allowed: u32,
) -> nat {
    if to is Own && allowed > room_for(inventory, recipe) {
        room_for(inventory, recipe) as nat
    } else {
        allowed as nat
    }
}

/// The economy after the factory under `key` has had `allowed` cycles, and how many crafts
/// it did.
pub open spec fn factory_after(
    e: EconomyView,
    book: Seq<(i16, RecipeView)>,
    key: i32,
    allowed: u32,
) -> (EconomyView, nat) {
    match factory_at(e, key) {
        None => (e, 0),
        Some((block, team, inventory, to)) => match recipe_for(book, block) {
            None => (e, 0),
            Some(recipe) => {
                let n = cycles_for(inventory, recipe, to, allowed);
                let (items, core, k) = crafted(inventory, e.core_of(team), recipe, to, n);
                if k == 0 {
                    (e, 0)
                } else {
                    let paid = e.with_core(team, core);
                    if e.world.tiles.dom().contains(key) {
                        let t = e.world.tiles[key];
                        (
                            EconomyView {
                                world: e.world.with_tile(key, TileView { inventory: items, ..t }),
                                ..paid
                            },
                            k,
                        )
                    } else {
                        let b = e.base[key];
                        (
                            EconomyView {
                                base: e.base.insert(key, BaseView { inventory: items, ..b }),
                                ..paid
                            },
                            k,
                        )
                    }
                }
            },
        },
    }
}

proof fn lemma_nothing_due(e: EconomyView, book: Seq<(i16, RecipeView)>, key: i32)
    requires
        book_wf(book),
    ensures
        factory_after(e, book, key, 0) == (e, 0nat),
{
    if let Some((block, team, inventory, to)) = factory_at(e, key) {
        lemma_recipe_is_wf(book, block);
        if let Some(recipe) = recipe_for(book, block) {
            crate::production::lemma_slot(inventory, recipe.output.0);
            let left = i32::MAX - held(inventory, recipe.output.0);
            let per = recipe.output.1 as int;
            assert(left / per >= 0) by (nonlinear_arith)
                requires
                    left >= 0,
                    per > 0,
            ;
        }
    }
}

pub proof fn lemma_recipe_is_wf(book: Seq<(i16, RecipeView)>, block: i16)
    requires
        book_wf(book),
    ensures
        recipe_for(book, block) matches Some(recipe) ==> recipe.wf(),
    decreases book.len(),
{
    if book.len() > 0 {
        let rest = book.skip(1);
        assert forall|i: int| 0 <= i < rest.len() implies (#[trigger] rest[i]).1.wf() by {
            assert(rest[i] == book[i + 1]);
        }
        assert(book[0].1.wf());
        lemma_recipe_is_wf(rest, block);
    }
}

/// One factory: it crafts as often as its progress and its inputs allow.
pub fn run_factory(e: &mut Economy, book: &RecipeBook, key: i32, allowed: u32) -> (n: u32)
    requires
        old(e).ready(),
        allowed > 0 ==> in_order(old(e)@, key),
        book_wf(book@),
    ensures
        final(e).ready(),
        allowed > 0 ==> in_order(final(e)@, key),
        forall|other: i32|
            other != key ==> #[trigger] factory_at(final(e)@, other) == factory_at(old(e)@, other),
        (final(e)@, n as nat) == factory_after(old(e)@, book@, key, allowed),
        final(e).world.tiles.spec_keys() == old(e).world.tiles.spec_keys(),
        final(e).base.spec_keys() == old(e).base.spec_keys(),
{
    if allowed == 0 {
        proof {
            lemma_nothing_due(e@, book@, key);
        }
        return 0;
    }
    let ghost before = e@;
    let mut on_map: bool = true;
    let mut block: i16 = 0;
    let mut team: u8 = 0;
    let mut inventory: Vec<(i16, i32)> = Vec::new();
    match e.world.tile(key) {
        Some(tile) => {
            block = tile.block;
            team = tile.team;
            inventory = copy_inventory(&tile.inventory);
        },
        None => {
            on_map = false;
            match e.base.get(key) {
                Some(building) => {
                    assert(building@ == e@.base[key]);
                    block = building.block;
                    team = building.team;
                    inventory = copy_inventory(&building.inventory);
                },
                None => return 0,
            }
        },
    }
    assert(sound(inventory@)) by {
        assert(in_order(before, key));
    }
    let recipe = match book.factory_recipe(block) {
        Some(recipe) => recipe,
        None => return 0,
    };
    let to = if on_map { Output::Own } else { Output::Core(e.capacity) };
    let there: i32 = inventory_count(&inventory, recipe.output.0);
    proof {
        crate::production::lemma_slot(inventory@, recipe.output.0);
    }
    let per: i32 = recipe.output.1;
    let room: i32 = (i32::MAX - there) / per;
    let cycles: u32 = if on_map && allowed > room as u32 { room as u32 } else { allowed };
    if on_map {
        assert(per * cycles <= i32::MAX - there) by (nonlinear_arith)
            requires
                per > 0,
                room == (i32::MAX - there) / per as int,
                0 <= cycles <= room,
        ;
    }
    let mut core = e.copy_of_core(team);
    let n: u32 = craft_cycles(&mut inventory, &mut core, recipe, to, cycles);
    if n == 0 {
        return 0;
    }
    e.put_core(team, core);
    let ghost paid = e@;
    if on_map {
        let mut tile = match e.world.tile(key) {
            Some(tile) => tile.copy(),
            None => return n,
        };
        tile.inventory = inventory;
        assert(tile@ == TileView { inventory: inventory@, ..before.world.tiles[key] });
        e.world.put(key, tile);
        assert(e@ =~= EconomyView {
            world: before.world.with_tile(
                key,
                TileView { inventory: inventory@, ..before.world.tiles[key] },
            ),
            ..paid
        });
    } else {
        let building = match e.base.get(key) {
            Some(b) => BaseBuilding {
                position: b.position,
                block: b.block,
                team: b.team,
                occupied: copy_positions(&b.occupied),
                inventory,
            },
            None => return n,
        };
        assert(building@ == BaseView { inventory: inventory@, ..before.base[key] });
        e.base.insert(key, building);
        assert(e@.base =~= before.base.insert(
            key,
            BaseView { inventory: inventory@, ..before.base[key] },
        ));
    }
    n
}

/// The keys for which there is a recipe: the buildings on the map, then those that came
/// with it and are not on it.
pub open spec fn factory_keys(
    e: EconomyView,
    tiles: Seq<i32>,
    base: Seq<i32>,
    book: Seq<(i16, RecipeView)>,
) -> Seq<i32> {
    tiles.filter(|key: i32| recipe_for(book, e.world.tiles[key].block) is Some) + base.filter(
        |key: i32|
            recipe_for(book, e.base[key].block) is Some && !e.world.tiles.dom().contains(key),
    )
}

/// The economy after the factories under `keys`, one after the other.
pub open spec fn factories_after(
    e: EconomyView,
    book: Seq<(i16, RecipeView)>,
    due: Map<i32, u32>,
    keys: Seq<i32>,
) -> EconomyView
    decreases keys.len(),
{
    if keys.len() == 0 {
        e
    } else {
        let before = factories_after(e, book, due, keys.drop_last());
        factory_after(before, book, keys.last(), cycles_due(due, keys.last())).0
    }
}

/// How many cycles the factory under `key` is due.
pub open spec fn cycles_due(due: Map<i32, u32>, key: i32) -> u32 {
    if due.dom().contains(key) { due[key] } else { 0 }
}

/// How many crafts each of the factories under `keys` did.
pub open spec fn crafts_after(
    e: EconomyView,
    book: Seq<(i16, RecipeView)>,
    due: Map<i32, u32>,
    keys: Seq<i32>,
) -> Seq<(i32, nat)> {
    Seq::new(
        keys.len(),
        |i: int|
            {
                let before = factories_after(e, book, due, keys.take(i));
                (keys[i], factory_after(before, book, keys[i], cycles_due(due, keys[i])).1)
            },
    )
}

fn factory_order(e: &Economy, book: &RecipeBook) -> (r: Vec<i32>)
    requires
        e.ready(),
    ensures
        r@ == factory_keys(e@, e.world.tiles.spec_keys(), e.base.spec_keys(), book@),
{
    let tiles = e.world.tiles.keys();
    let base = e.base.keys();
    let ghost on_map = |key: i32| recipe_for(book@, e@.world.tiles[key].block) is Some;
    let ghost left = |key: i32|
        recipe_for(book@, e@.base[key].block) is Some && !e@.world.tiles.dom().contains(key);
    let mut keys: Vec<i32> = Vec::new();
    let mut i: usize = 0;
    assert(tiles@.take(0).filter(on_map) =~= Seq::empty()) by {
        reveal(Seq::filter);
    }
    while i < tiles.len()
        invariant
            e.ready(),
            i <= tiles@.len(),
            on_map == (|key: i32| recipe_for(book@, e@.world.tiles[key].block) is Some),
            forall|key: i32| tiles@.contains(key) <==> e.world.tiles@.dom().contains(key),
            keys@ == tiles@.take(i as int).filter(on_map),
        decreases tiles@.len() - i,
    {
        proof {
            reveal(Seq::filter);
            assert(tiles@.take(i + 1).drop_last() =~= tiles@.take(i as int));
            assert(tiles@.contains(tiles@[i as int]));
        }
        match e.world.tile(tiles[i]) {
            Some(tile) => {
                if book.factory_recipe(tile.block).is_some() {
                    keys.push(tiles[i]);
                }
            },
            None => {},
        }
        i += 1;
    }
    assert(tiles@.take(i as int) =~= tiles@);
    let ghost first = keys@;
    let mut i: usize = 0;
    assert(base@.take(0).filter(left) =~= Seq::empty()) by {
        reveal(Seq::filter);
    }
    assert(keys@ =~= first + base@.take(0).filter(left));
    while i < base.len()
        invariant
            e.ready(),
            i <= base@.len(),
            left == (|key: i32|
                recipe_for(book@, e@.base[key].block) is Some && !e@.world.tiles.dom().contains(
                    key,
                )),
            forall|key: i32| base@.contains(key) <==> e.base@.dom().contains(key),
            keys@ == first + base@.take(i as int).filter(left),
        decreases base@.len() - i,
    {
        let ghost grown = base@.take(i + 1);
        proof {
            reveal(Seq::filter);
            assert(grown.drop_last() =~= base@.take(i as int));
            assert(base@.contains(base@[i as int]));
        }
        let ghost before = keys@;
        match e.base.get(base[i]) {
            Some(building) => {
                assert(building@ == e@.base[base@[i as int]]);
                if book.factory_recipe(building.block).is_some() && e.world.tile(
                    base[i],
                ).is_none() {
                    keys.push(base[i]);
                    assert(keys@ =~= first + base@.take(i as int).filter(left).push(
                        base@[i as int],
                    ));
                }
            },
            None => {},
        }
        assert(keys@ =~= first + grown.filter(left));
        i += 1;
    }
    assert(base@.take(i as int) =~= base@);
    keys
}

/// Runs every factory once. `due` says how often the progress of a building covers its
/// craft time. Returns the keys with the number of crafts of each.
///
/// A building that is both on the map and in the base registry is run once, with the
/// inventory on the map. Of a factory whose inventory is out of order nothing is said; one that
/// is due no cycle is left alone.
pub fn simulate_base_factories(e: &mut Economy, book: &RecipeBook, due: &Registry<u32>) -> (r: Vec<
    (i32, u32),
>)
    requires
        old(e).ready(),
        due.wf(),
        due_in_order(old(e)@, due@),
        book_wf(book@),
    ensures
        final(e).ready(),
        final(e).world.tiles.spec_keys() == old(e).world.tiles.spec_keys(),
        final(e).base.spec_keys() == old(e).base.spec_keys(),
        due_in_order(final(e)@, due@),
        ({
            let keys = factory_keys(
                old(e)@,
                old(e).world.tiles.spec_keys(),
                old(e).base.spec_keys(),
                book@,
            );
            &&& final(e)@ == factories_after(old(e)@, book@, due@, keys)
            &&& r@.len() == keys.len()
            &&& forall|i: int|
                0 <= i < r@.len() ==> ((#[trigger] r@[i]).0, r@[i].1 as nat) == crafts_after(
                    old(e)@,
                    book@,
                    due@,
                    keys,
                )[i]
        }),
{
    let keys = factory_order(e, book);
    let ghost start = e@;
    let ghost order = keys@;
    let mut r: Vec<(i32, u32)> = Vec::new();
    let mut i: usize = 0;
    assert(order.take(0) =~= Seq::empty());
    while i < keys.len()
        invariant
            e.ready(),
            e.world.tiles.spec_keys() == old(e).world.tiles.spec_keys(),
            e.base.spec_keys() == old(e).base.spec_keys(),
            due.wf(),
            due_in_order(e@, due@),
            book_wf(book@),
            start == old(e)@,
            keys@ == order,
            i <= order.len(),
            r@.len() == i,
            e@ == factories_after(start, book@, due@, order.take(i as int)),
            forall|j: int|
                0 <= j < r@.len() ==> ((#[trigger] r@[j]).0, r@[j].1 as nat) == crafts_after(
                    start,
                    book@,
                    due@,
                    order,
                )[j],
        decreases order.len() - i,
    {
        let key: i32 = keys[i];
        assert(order.take(i + 1).drop_last() =~= order.take(i as int));
        let allowed: u32 = match due.get(key) {
            Some(n) => *n,
            None => 0,
        };
        let ghost here = e@;
        let n: u32 = run_factory(e, book, key, allowed);
        assert forall|k: i32| #[trigger] due@.dom().contains(k) && due@[k] > 0 implies in_order(
            e@,
            k,
        ) by {
            if k != key {
                assert(factory_at(e@, k) == factory_at(here, k));
                assert(in_order(here, k));
            }
        }
        let ghost so_far = r@;
        r.push((key, n));
        assert forall|j: int| 0 <= j < r@.len() implies ((#[trigger] r@[j]).0, r@[j].1 as nat)
            == crafts_after(start, book@, due@, order)[j] by {
            if j < so_far.len() {
                assert(r@[j] == so_far[j]);
            }
        }
        i += 1;
    }
    assert(order.take(i as int) =~= order);
    r
}

// ---------------------------------------------------------------------------
// Drills that came with the map.

/// The economy after the drill under `key`: what it produced goes to the core of its team.
/// A building that is on the map is left to the map.
pub open spec fn drill_after(
    e: EconomyView,
    drills: Seq<i16>,
    produced: Map<i32, (i16, i32)>,
    key: i32,
) -> EconomyView {
    if e.world.tiles.dom().contains(key) || !e.base.dom().contains(key) || !drills.contains(
        e.base[key].block,
    ) {
        e
    } else {
        if produced.dom().contains(key) && produced[key].1 > 0 {
            let (item, amount) = produced[key];
            let team = e.base[key].team;
            e.with_core(team, deposited(e.core_of(team), item, amount as int, e.capacity))
        } else {
            e
        }
    }
}

/// The economy after the drills under `keys`, one after the other.
pub open spec fn drills_after(
    e: EconomyView,
    drills: Seq<i16>,
    produced: Map<i32, (i16, i32)>,
    keys: Seq<i32>,
) -> EconomyView
    decreases keys.len(),
{
    if keys.len() == 0 {
        e
    } else {
        drill_after(
            drills_after(e, drills, produced, keys.drop_last()),
            drills,
            produced,
            keys.last(),
        )
    }
}

/// Whether the drill under `key` delivered anything.
pub open spec fn drill_delivers(
    e: EconomyView,
    drills: Seq<i16>,
    produced: Map<i32, (i16, i32)>,
    key: i32,
) -> bool {
    &&& !e.world.tiles.dom().contains(key)
    &&& e.base.dom().contains(key)
    &&& drills.contains(e.base[key].block)
    &&& produced.dom().contains(key)
    &&& produced[key].1 > 0
}

fn is_listed(blocks: &Vec<i16>, block: i16) -> (r: bool)
    ensures
        r == blocks@.contains(block),
{
    let mut i: usize = 0;
    while i < blocks.len()
        invariant
            i <= blocks@.len(),
            forall|j: int| 0 <= j < i ==> blocks@[j] != block,
        decreases blocks@.len() - i,
    {
        if blocks[i] == block {
            assert(blocks@[i as int] == block);
            return true;
        }
        i += 1;
    }
    false
}

proof fn lemma_drills_keep_buildings(
    e: EconomyView,
    drills: Seq<i16>,
    produced: Map<i32, (i16, i32)>,
    keys: Seq<i32>,
)
    ensures
        drills_after(e, drills, produced, keys).world == e.world,
        drills_after(e, drills, produced, keys).base == e.base,
        drills_after(e, drills, produced, keys).capacity == e.capacity,
    decreases keys.len(),
{
    if keys.len() > 0 {
        lemma_drills_keep_buildings(e, drills, produced, keys.drop_last());
    }
}

/// Runs every drill that came with the map once. `produced` says what the progress of a
/// drill covers: the item and how many of it; a drill without ore is not in it. Returns
/// whether anything was delivered.
pub fn simulate_base_drills(
    e: &mut Economy,
    drills: &Vec<i16>,
    produced: &Registry<(i16, i32)>,
) -> (changed: bool)
    requires
        old(e).ready(),
        produced.wf(),
    ensures
        final(e).ready(),
        final(e).world == old(e).world,
        final(e).base == old(e).base,
        final(e)@ == drills_after(old(e)@, drills@, produced@, old(e).base.spec_keys()),
        changed == exists|i: int|
            0 <= i < old(e).base.spec_keys().len() && drill_delivers(
                old(e)@,
                drills@,
                produced@,
                #[trigger] old(e).base.spec_keys()[i],
            ),
{
    let keys = e.base.keys();
    let ghost start = e@;
    let ghost order = keys@;
    let mut changed: bool = false;
    let mut i: usize = 0;
    assert(order.take(0) =~= Seq::empty());
    while i < keys.len()
        invariant
            e.ready(),
            e.world == old(e).world,
            e.base == old(e).base,
            produced.wf(),
            start == old(e)@,
            keys@ == order,
            order == old(e).base.spec_keys(),
            i <= order.len(),
            e@ == drills_after(start, drills@, produced@, order.take(i as int)),
            changed == exists|j: int|
                0 <= j < i && drill_delivers(start, drills@, produced@, #[trigger] order[j]),
        decreases order.len() - i,
    {
        let key: i32 = keys[i];
        let ghost before = e@;
        proof {
            assert(order.take(i + 1).drop_last() =~= order.take(i as int));
            lemma_drills_keep_buildings(start, drills@, produced@, order.take(i as int));
        }
        let mut team: Option<u8> = None;
        // Buildings on the map own their drills; running this copy too would produce
        // everything twice.
        if e.world.tile(key).is_none() {
            match e.base.get(key) {
                Some(building) => {
                    assert(building@ == e@.base[key]);
                    if is_listed(drills, building.block) {
                        team = Some(building.team);
                    }
                },
                None => {},
            }
        }
        let ghost delivers = drill_delivers(start, drills@, produced@, key);
        match team {
            Some(team) => {
                match produced.get(key) {
                    Some(yielded) => {
                        let (item, amount) = *yielded;
                        if amount > 0 {
                            let mut core = e.copy_of_core(team);
                            deposit_core_items(&mut core, item, amount, e.capacity);
                            e.put_core(team, core);
                            changed = true;
                            assert(delivers);
                        }
                    },
                    None => {},
                }
            },
            None => {},
        }
        assert(order[i as int] == key);
        assert(e@ == drill_after(before, drills@, produced@, key));
        i += 1;
    }
    assert(order.take(i as int) =~= order);
    proof {
        lemma_drills_keep_buildings(start, drills@, produced@, order);
    }
    changed
}

/// A building that is on the map and in the base registry is not run through the registry:
/// nothing is produced twice.
pub proof fn law_loaded_drill_runs_once(
    e: EconomyView,
    drills: Seq<i16>,
    produced: Map<i32, (i16, i32)>,
    key: i32,
)
    requires
        e.world.tiles.dom().contains(key),
    ensures
        drill_after(e, drills, produced, key) == e,
        !drill_delivers(e, drills, produced, key),
{
}

/// A craft of a building on the map never changes the buildings of the base registry, and
/// the other way round; only the core is shared.
pub proof fn law_factory_touches_its_own(
    e: EconomyView,
    book: Seq<(i16, RecipeView)>,
    key: i32,
    allowed: u32,
    other: i32,
)
    requires
        other != key,
    ensures
        ({
            let after = factory_after(e, book, key, allowed).0;
            &&& after.world.tiles.dom().contains(other) == e.world.tiles.dom().contains(other)
            &&& after.base.dom().contains(other) == e.base.dom().contains(other)
            &&& e.world.tiles.dom().contains(other) ==> after.world.tiles[other]
                == e.world.tiles[other]
            &&& e.base.dom().contains(other) ==> after.base[other] == e.base[other]
        }),
{
}

// ---------------------------------------------------------------------------
// Items that reach a core.

/// The economy after what the steps brought to the cores, one item after the other.
pub open spec fn stored_after(e: EconomyView, steps: Seq<Step>) -> EconomyView
    decreases steps.len(),
{
    if steps.len() == 0 {
        e
    } else {
        let before = stored_after(e, steps.drop_last());
        match given(steps.last()) {
            Some((item, Taker::Core(team))) => before.with_core(
                team,
                deposited(before.core_of(team), item, 1, before.capacity),
            ),
            _ => before,
        }
    }
}

fn given_item(step: Step) -> (r: Option<(i16, Taker)>)
    ensures
        r == given(step),
{
    match step {
        Step::Belt(Handoff::Accepted { item, taker }) => Some((item, taker)),
        Step::Queue(Delivery::Taken { item, taker, .. }) => Some((item, taker)),
        _ => None,
    }
}

/// Puts what the steps of a pass brought to the cores into them.
pub fn store_deliveries(e: &mut Economy, steps: &Vec<Step>)
    requires
        old(e).ready(),
    ensures
        final(e).ready(),
        final(e)@ == stored_after(old(e)@, steps@),
        final(e).world == old(e).world,
        final(e).base == old(e).base,
{
    let ghost start = e@;
    let mut i: usize = 0;
    assert(steps@.take(0) =~= Seq::empty());
    while i < steps.len()
        invariant
            e.ready(),
            start == old(e)@,
            e.world == old(e).world,
            e.base == old(e).base,
            i <= steps@.len(),
            e@ == stored_after(start, steps@.take(i as int)),
        decreases steps@.len() - i,
    {
        assert(steps@.take(i + 1).drop_last() =~= steps@.take(i as int));
        match given_item(steps[i]) {
            Some((item, Taker::Core(team))) => {
                let mut core = e.copy_of_core(team);
                deposit_core_items(&mut core, item, 1, e.capacity);
                e.put_core(team, core);
            },
            _ => {},
        }
        i += 1;
    }
    assert(steps@.take(i as int) =~= steps@);
}

// ---------------------------------------------------------------------------
// Drills on the map.

/// The bits of 0.0001: a drill with no more water than this is dry.
pub const DRY_LIMIT: u32 = 0x38D1_B717;

/// How much a liquid speeds a drill up, how much of it a tick takes, and how fast the
/// drill warms up; all as bits of single-precision numbers.
pub open spec fn spec_drill_liquid_boost(block: i16) -> (u32, u32, u32) {
    if block == 325 {
        // 1.6, 0.05, 0.015
        (0x3FCC_CCCD, 0x3D4C_CCCD, 0x3C75_C28F)
    } else if block == 326 {
        // 1.6, 3.5 / 60, 0.015
        (0x3FCC_CCCD, 0x3D6E_EEEF, 0x3C75_C28F)
    } else if block == 327 {
        // 1.6, 0.08, 0.015
        (0x3FCC_CCCD, 0x3DA3_D70A, 0x3C75_C28F)
    } else if block == 328 {
        // 1.8, 0.1, 0.01
        (0x3FE6_6666, 0x3DCC_CCCD, 0x3C23_D70A)
    } else {
        // 1, 0, 0.015
        (ONE, ZERO, 0x3C75_C28F)
    }
}

/// The boost of a drill by its block. A full boost multiplies the throughput by its square:
/// the warmup approaches the speed, and progress grows with both.
pub fn drill_liquid_boost(block: i16) -> (r: (u32, u32, u32))
    ensures
        r == spec_drill_liquid_boost(block),
{
    match block {
        325 => (0x3FCC_CCCD, 0x3D4C_CCCD, 0x3C75_C28F),
        326 => (0x3FCC_CCCD, 0x3D6E_EEEF, 0x3C75_C28F),
        327 => (0x3FCC_CCCD, 0x3DA3_D70A, 0x3C75_C28F),
        328 => (0x3FE6_6666, 0x3DCC_CCCD, 0x3C23_D70A),
        _ => (ONE, ZERO, 0x3C75_C28F),
    }
}

/// The efficiency of a drill by its power; see [`drill_efficiency`].
pub open spec fn spec_drill_power(block: i16, power: Option<u32>) -> u32 {
    clamped(
        match power {
            Some(p) => p,
            None => if block == 325 || block == 326 { ONE } else { ZERO },
        },
        ZERO,
        ONE,
    )
}

/// The efficiency of a drill: its power, or without a power graph all for the two drills
/// that need none and nothing for the others; within 0 and 1.
pub fn drill_efficiency(block: i16, power: Option<u32>) -> (r: u32)
    ensures
        r == spec_drill_power(block, power),
{
    let given: u32 = match power {
        Some(p) => p,
        None => if block == 325 || block == 326 { ONE } else { ZERO },
    };
    clamp_to(given, ZERO, ONE)
}

/// What one tick of a drill depends on besides the drill. The numbers are bits.
pub struct DrillTick {
    /// The ore under the drill.
    pub ore: Option<i16>,
    pub capacity: i32,
    pub efficiency: u32,
    /// The speed that the warmup approaches.
    pub speed: u32,
    /// How much water a tick takes.
    pub water_rate: u32,
    /// The warmup one step up.
    pub warmer: u32,
    /// The warmup one step down.
    pub colder: u32,
    /// The water after a tick of use.
    pub drained: u32,
    /// The progress that one item takes.
    pub delay: u32,
}

/// Whether a drill has water that it can use.
pub open spec fn has_water(tile: TileView, t: DrillTick) -> bool {
    tile.stored_liquid == 0 && below(ZERO, tile.liquid_amount) && below(ZERO, t.water_rate)
}

/// Whether a drill works: there is ore, room and power.
pub open spec fn operates(tile: TileView, t: DrillTick) -> bool {
    t.ore is Some && tile.stored_amount < t.capacity && below(ZERO, t.efficiency)
}

/// The warmup after a tick: a step towards its target and not past it.
pub open spec fn warmed(tile: TileView, t: DrillTick) -> u32 {
    let target = if operates(tile, t) { t.speed } else { ZERO };
    if below(tile.transport_progress, target) {
        smaller(t.warmer, target)
    } else {
        larger(t.colder, target)
    }
}

/// The drill after a tick.
pub open spec fn drill_ticked<P: Fn(u32) -> u32, W: Fn(u32) -> u32>(
    tile: TileView,
    t: DrillTick,
    progressed: P,
    wrapped: W,
) -> TileView {
    let warm = TileView { transport_progress: warmed(tile, t), ..tile };
    if !operates(tile, t) {
        warm
    } else {
        let left = larger(t.drained, ZERO);
        let dry = at_most(left, DRY_LIMIT);
        let watered = if has_water(tile, t) {
            TileView {
                liquid_amount: if dry { ZERO } else { left },
                stored_liquid: if dry { -1i16 } else { warm.stored_liquid },
                ..warm
            }
        } else {
            warm
        };
        let progress = value1(progressed, warm.transport_progress);
        if at_most(t.delay, progress) {
            let item = t.ore.unwrap();
            let emptied = TileView { production_progress: value1(wrapped, progress), ..watered };
            if tile.stored_amount == 0 || tile.stored_item == item {
                TileView {
                    stored_item: item,
                    stored_amount: (tile.stored_amount + 1) as i32,
                    ..emptied
                }
            } else {
                emptied
            }
        } else {
            TileView { production_progress: progress, ..watered }
        }
    }
}

/// One tick of a drill. Returns whether it worked. `progressed` gives the production
/// progress for a warmup, `wrapped` what is left of a progress after an item.
pub fn tick_drill<P: Fn(u32) -> u32, W: Fn(u32) -> u32>(
    tile: &mut DynamicTile,
    t: &DrillTick,
    progressed: &P,
    wrapped: &W,
) -> (operating: bool)
    requires
        pure1(*progressed),
        pure1(*wrapped),
    ensures
        operating == operates(old(tile)@, *t),
        final(tile)@ == drill_ticked(old(tile)@, *t, *progressed, *wrapped),
{
    let water: bool = tile.stored_liquid == 0 && lt(ZERO, tile.liquid_amount) && lt(
        ZERO,
        t.water_rate,
    );
    let operating: bool = t.ore.is_some() && tile.stored_amount < t.capacity && lt(
        ZERO,
        t.efficiency,
    );
    let target: u32 = if operating { t.speed } else { ZERO };
    if lt(tile.transport_progress, target) {
        tile.transport_progress = min_of(t.warmer, target);
    } else {
        tile.transport_progress = max_of(t.colder, target);
    }
    if !operating {
        return false;
    }
    if water {
        let left: u32 = max_of(t.drained, ZERO);
        if le(left, DRY_LIMIT) {
            tile.liquid_amount = ZERO;
            tile.stored_liquid = -1;
        } else {
            tile.liquid_amount = left;
        }
    }
    let progress: u32 = progressed(tile.transport_progress);
    assert(progress == value1(*progressed, tile.transport_progress));
    if le(t.delay, progress) {
        let rest: u32 = wrapped(progress);
        assert(rest == value1(*wrapped, progress));
        tile.production_progress = rest;
        match t.ore {
            Some(item) => {
                if tile.stored_amount == 0 || tile.stored_item == item {
                    tile.stored_item = item;
                    tile.stored_amount = tile.stored_amount + 1;
                }
            },
            None => {},
        }
    } else {
        tile.production_progress = progress;
    }
    true
}

/// A drill never holds more than its capacity through its own work, and never mixes items.
pub proof fn law_drill_fills_up<P: Fn(u32) -> u32, W: Fn(u32) -> u32>(
    tile: TileView,
    t: DrillTick,
    progressed: P,
    wrapped: W,
)
    ensures
        ({
            let after = drill_ticked(tile, t, progressed, wrapped);
            &&& after.stored_amount == tile.stored_amount || after.stored_amount
                == tile.stored_amount + 1 && after.stored_amount <= t.capacity
            &&& after.stored_item != tile.stored_item ==> tile.stored_amount == 0
        }),
{
}

} // verus!
