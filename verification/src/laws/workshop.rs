//! Which factories run, on whose items, and in which order.

use crate::conveyor::TileView;
use crate::economy::{
    book_wf, crafts_after, cycles_due, factories_after, factory_after, factory_keys,
    lemma_recipe_is_wf, recipe_for, EconomyView,
};
use crate::laws::factories::{inputs_are_there, law_crafts_repeat, least, most};
use crate::production::{core_holds, held, lemma_slot, sound, wanted, Output, RecipeView};
use vstd::prelude::*;

verus! {

/// A block is made by the first recipe that is listed for it.
pub proof fn law_first_recipe_counts(book: Seq<(i16, RecipeView)>, block: i16, i: int)
    ensures
        0 <= i < book.len() && book[i].0 == block && (forall|j: int|
            0 <= j < i ==> (#[trigger] book[j]).0 != block) ==> recipe_for(book, block) == Some(
            book[i].1,
        ),
        (forall|j: int| 0 <= j < book.len() ==> (#[trigger] book[j]).0 != block) ==> recipe_for(
            book,
            block,
        ) is None,
    decreases book.len(),
{
    if book.len() > 0 && book[0].0 != block {
        let rest = book.skip(1);
        law_first_recipe_counts(rest, block, i - 1);
        if 0 <= i < book.len() && book[i].0 == block && (forall|j: int|
            0 <= j < i ==> (#[trigger] book[j]).0 != block) {
            assert(i > 0);
            assert(rest[i - 1] == book[i]);
            assert forall|j: int| 0 <= j < i - 1 implies (#[trigger] rest[j]).0 != block by {
                assert(rest[j] == book[j + 1]);
            }
        }
        if forall|j: int| 0 <= j < book.len() ==> (#[trigger] book[j]).0 != block {
            assert forall|j: int| 0 <= j < rest.len() implies (#[trigger] rest[j]).0 != block by {
                assert(rest[j] == book[j + 1]);
            }
        }
    }
}

/// How much of an item the core of a team holds, nothing where the team has none.
pub open spec fn stock(e: EconomyView, team: u8, item: i16) -> int {
    if e.cores.dom().contains(team as i32) { core_holds(e.cores[team as i32], item) } else { 0 }
}

/// What the core of a team holds, nothing where the team has none.
pub open spec fn store(e: EconomyView, team: u8) -> Seq<i32> {
    if e.cores.dom().contains(team as i32) { e.cores[team as i32] } else { Seq::empty() }
}

/// How much of an item a recipe makes.
pub open spec fn makes(recipe: RecipeView, item: i16) -> int {
    if recipe.output.0 == item { recipe.output.1 as int } else { 0 }
}

proof fn lemma_room(inventory: Seq<(i16, i32)>, recipe: RecipeView)
    requires
        sound(inventory),
        recipe.wf(),
    ensures
        ({
            let left = i32::MAX - held(inventory, recipe.output.0);
            let room = left / recipe.output.1 as int;
            &&& 0 <= room
            &&& recipe.output.1 * room <= left
            &&& recipe.output.1 * (room + 1) > left
        }),
{
    lemma_slot(inventory, recipe.output.0);
    let left = i32::MAX - held(inventory, recipe.output.0);
    let per = recipe.output.1 as int;
    let room = left / per;
    assert(0 <= room && per * room <= left && per * (room + 1) > left) by (nonlinear_arith)
        requires
            left >= 0,
            per > 0,
            room == left / per,
    ;
}

/// A factory on the map works from its own items and the core of its team, and keeps what it
/// makes: together they hold so many times the inputs less and so many times the output more
/// as there were crafts. It stops early only where the inputs are not there or its own count
/// has no room. Nothing else changes, and no other core.
pub proof fn law_factory_on_the_map_keeps_its_output(
    e: EconomyView,
    book: Seq<(i16, RecipeView)>,
    key: i32,
    allowed: u32,
    item: i16,
    other: u8,
)
    requires
        book_wf(book),
        e.world.tiles.dom().contains(key),
        sound(e.world.tiles[key].inventory),
        recipe_for(book, e.world.tiles[key].block) is Some,
    ensures
        ({
            let recipe = recipe_for(book, e.world.tiles[key].block).unwrap();
            let (after, k) = factory_after(e, book, key, allowed);
            let t = e.world.tiles[key];
            let u = after.world.tiles[key];
            &&& k <= allowed
            &&& u == TileView { inventory: u.inventory, ..t }
            &&& after.world.tiles.dom() == e.world.tiles.dom()
            &&& after.world.footprint == e.world.footprint
            &&& after.base == e.base
            &&& after.capacity == e.capacity
            &&& after.cores.dom() == e.cores.dom()
            &&& other != t.team ==> store(after, other) == store(e, other)
            &&& held(u.inventory, item) + stock(after, t.team, item) == held(t.inventory, item)
                + stock(e, t.team, item) - k * wanted(recipe.inputs, item) + k * makes(
                recipe,
                item,
            )
            &&& k < allowed ==> !inputs_are_there(u.inventory, store(after, t.team), recipe)
                || held(t.inventory, recipe.output.0) + recipe.output.1 * (k + 1) > i32::MAX
            &&& k == 0 ==> after == e
        }),
{
    let t = e.world.tiles[key];
    lemma_recipe_is_wf(book, t.block);
    let recipe = recipe_for(book, t.block).unwrap();
    lemma_room(t.inventory, recipe);
    let left = i32::MAX - held(t.inventory, recipe.output.0);
    let room = left / recipe.output.1 as int;
    let n: nat = if allowed > room { room as nat } else { allowed as nat };
    let per = recipe.output.1 as int;
    assert(per * n <= left) by (nonlinear_arith)
        requires
            per > 0,
            n <= room,
            per * room <= left,
    ;
    law_crafts_repeat(t.inventory, e.core_of(t.team), recipe, Output::Own, n, item);
    let (after, k) = factory_after(e, book, key, allowed);
    assert(after.cores.dom() =~= e.cores.dom());
    assert(k * makes(recipe, item) == if recipe.output.0 == item { k * per } else { 0 })
        by (nonlinear_arith)
        requires
            makes(recipe, item) == if recipe.output.0 == item { per } else { 0int },
    ;
    assert(0 * wanted(recipe.inputs, item) == 0) by (nonlinear_arith);
    assert(0 * makes(recipe, item) == 0) by (nonlinear_arith);
    assert(after.world.tiles.dom() =~= e.world.tiles.dom());
}

/// A factory that came with the map and does not stand on it delivers what it makes: its own
/// items and the core of its team hold so many times the inputs less as there were crafts, and
/// the core so many times the output more, up to its capacity. It stops early only where the
/// inputs are not there. Nothing else changes, and no other core.
pub proof fn law_factory_beside_the_map_delivers(
    e: EconomyView,
    book: Seq<(i16, RecipeView)>,
    key: i32,
    allowed: u32,
    item: i16,
    other: u8,
)
    requires
        book_wf(book),
        !e.world.tiles.dom().contains(key),
        e.base.dom().contains(key),
        sound(e.base[key].inventory),
        recipe_for(book, e.base[key].block) is Some,
    ensures
        ({
            let recipe = recipe_for(book, e.base[key].block).unwrap();
            let (after, k) = factory_after(e, book, key, allowed);
            let t = e.base[key];
            let u = after.base[key];
            let out = recipe.output.0;
            &&& k <= allowed
            &&& u.block == t.block && u.team == t.team && u.position == t.position
            &&& u.occupied == t.occupied
            &&& after.base.dom() == e.base.dom()
            &&& after.world == e.world
            &&& after.capacity == e.capacity
            &&& after.cores.dom() == e.cores.dom()
            &&& other != t.team ==> store(after, other) == store(e, other)
            &&& item != out ==> held(u.inventory, item) + stock(after, t.team, item) == held(
                t.inventory,
                item,
            ) + stock(e, t.team, item) - k * wanted(recipe.inputs, item)
            &&& item == out && wanted(recipe.inputs, item) == 0 && 0 <= item < store(
                e,
                t.team,
            ).len() ==> held(u.inventory, item) == held(t.inventory, item) && stock(
                after,
                t.team,
                item,
            ) == least(
                stock(e, t.team, item) + k * recipe.output.1,
                most(stock(e, t.team, item), e.capacity as int),
            )
            &&& k < allowed ==> !inputs_are_there(u.inventory, store(after, t.team), recipe)
            &&& k == 0 ==> after == e
        }),
{
    let t = e.base[key];
    lemma_recipe_is_wf(book, t.block);
    let recipe = recipe_for(book, t.block).unwrap();
    law_crafts_repeat(
        t.inventory,
        e.core_of(t.team),
        recipe,
        Output::Core(e.capacity),
        allowed as nat,
        item,
    );
    let (after, k) = factory_after(e, book, key, allowed);
    assert(after.cores.dom() =~= e.cores.dom());
    assert(after.base.dom() =~= e.base.dom());
    assert(0 * wanted(recipe.inputs, item) == 0) by (nonlinear_arith);
    assert(0 * recipe.output.1 == 0) by (nonlinear_arith);
}

/// Nothing happens where no building stands or no recipe is for it.
pub proof fn law_no_recipe_no_craft(
    e: EconomyView,
    book: Seq<(i16, RecipeView)>,
    key: i32,
    allowed: u32,
)
    ensures
        !e.world.tiles.dom().contains(key) && !e.base.dom().contains(key) ==> factory_after(
            e,
            book,
            key,
            allowed,
        ) == (e, 0nat),
        e.world.tiles.dom().contains(key) && recipe_for(book, e.world.tiles[key].block) is None
            ==> factory_after(e, book, key, allowed) == (e, 0nat),
        !e.world.tiles.dom().contains(key) && e.base.dom().contains(key) && recipe_for(
            book,
            e.base[key].block,
        ) is None ==> factory_after(e, book, key, allowed) == (e, 0nat),
{
}

// ---------------------------------------------------------------------------
// Which factories run.

pub proof fn lemma_filter_members<T>(s: Seq<T>, p: spec_fn(T) -> bool)
    ensures
        forall|x: T| #[trigger] s.filter(p).contains(x) <==> s.contains(x) && p(x),
        s.no_duplicates() ==> s.filter(p).no_duplicates(),
        forall|i: int| 0 <= i < s.filter(p).len() ==> p(#[trigger] s.filter(p)[i]) && s.contains(
            s.filter(p)[i],
        ),
    decreases s.len(),
{
    reveal(Seq::filter);
    if s.len() > 0 {
        let front = s.drop_last();
        lemma_filter_members(front, p);
        let out = s.filter(p);
        let before = front.filter(p);
        assert forall|x: T| #[trigger] out.contains(x) <==> s.contains(x) && p(x) by {
            assert(before.contains(x) <==> front.contains(x) && p(x));
            if out.contains(x) {
                let i = choose|i: int| 0 <= i < out.len() && out[i] == x;
                if i < before.len() {
                    assert(before[i] == x);
                    assert(before.contains(x));
                    let j = choose|j: int| 0 <= j < front.len() && front[j] == x;
                    assert(s[j] == x);
                } else {
                    assert(s[s.len() - 1] == x);
                }
            }
            if s.contains(x) && p(x) {
                let j = choose|j: int| 0 <= j < s.len() && s[j] == x;
                if j < front.len() {
                    assert(front[j] == x);
                    assert(before.contains(x));
                    let i = choose|i: int| 0 <= i < before.len() && before[i] == x;
                    assert(out[i] == x);
                } else {
                    assert(out[out.len() - 1] == x);
                }
            }
        }
        assert forall|i: int| 0 <= i < out.len() implies p(#[trigger] out[i]) && s.contains(
            out[i],
        ) by {
            assert(out.contains(out[i]));
        }
        if s.no_duplicates() {
            assert(front.no_duplicates());
            if p(s.last()) {
                assert forall|i: int, j: int| 0 <= i < out.len() && 0 <= j < out.len() && i
                    != j implies out[i] != out[j] by {
                    if i < before.len() && j < before.len() {
                        assert(before[i] != before[j]);
                    } else {
                        let k = if i < before.len() { i } else { j };
                        assert(before.contains(before[k]));
                        let m = choose|m: int| 0 <= m < front.len() && front[m] == before[k];
                        assert(s[m] == before[k]);
                    }
                }
            }
        }
    } else {
        assert(s.filter(p) =~= Seq::empty());
    }
}

/// Exactly the buildings run for which there is a recipe: those on the map, and those that
/// came with it and do not stand on it. Each runs once, those on the map first.
pub proof fn law_every_factory_runs_once(
    e: EconomyView,
    tiles: Seq<i32>,
    base: Seq<i32>,
    book: Seq<(i16, RecipeView)>,
    key: i32,
    i: int,
    j: int,
)
    requires
        tiles.no_duplicates(),
        base.no_duplicates(),
        forall|k: i32| tiles.contains(k) <==> e.world.tiles.dom().contains(k),
        forall|k: i32| base.contains(k) <==> e.base.dom().contains(k),
    ensures
        ({
            let keys = factory_keys(e, tiles, base, book);
            &&& keys.no_duplicates()
            &&& keys.contains(key) <==> {
                ||| e.world.tiles.dom().contains(key) && recipe_for(
                    book,
                    e.world.tiles[key].block,
                ) is Some
                ||| !e.world.tiles.dom().contains(key) && e.base.dom().contains(key)
                    && recipe_for(book, e.base[key].block) is Some
            }
            &&& 0 <= i < j < keys.len() && e.world.tiles.dom().contains(keys[j])
                ==> e.world.tiles.dom().contains(keys[i])
        }),
{
    let on_map = |key: i32| recipe_for(book, e.world.tiles[key].block) is Some;
    let left = |key: i32|
        recipe_for(book, e.base[key].block) is Some && !e.world.tiles.dom().contains(key);
    lemma_filter_members(tiles, on_map);
    lemma_filter_members(base, left);
    let (a, b) = (tiles.filter(on_map), base.filter(left));
    let keys = factory_keys(e, tiles, base, book);
    assert(keys =~= a + b);
    assert(keys.contains(key) <==> a.contains(key) || b.contains(key)) by {
        if a.contains(key) {
            let n = choose|n: int| 0 <= n < a.len() && a[n] == key;
            assert(keys[n] == key);
        }
        if b.contains(key) {
            let n = choose|n: int| 0 <= n < b.len() && b[n] == key;
            assert(keys[a.len() + n] == key);
        }
        if keys.contains(key) {
            let n = choose|n: int| 0 <= n < keys.len() && keys[n] == key;
            if n < a.len() {
                assert(a[n] == key);
            } else {
                assert(b[n - a.len()] == key);
            }
        }
    }
    assert(a.contains(key) <==> tiles.contains(key) && on_map(key));
    assert(b.contains(key) <==> base.contains(key) && left(key));
    assert forall|n: int| 0 <= n < a.len() implies e.world.tiles.dom().contains(
        #[trigger] a[n],
    ) by {
        assert(tiles.contains(a[n]));
    }
    assert forall|n: int| 0 <= n < b.len() implies !e.world.tiles.dom().contains(
        #[trigger] b[n],
    ) by {
        assert(left(b[n]));
    }
}

// ---------------------------------------------------------------------------
// One after the other.

proof fn lemma_one_factory(
    e: EconomyView,
    book: Seq<(i16, RecipeView)>,
    key: i32,
    allowed: u32,
    other: i32,
    team: u8,
)
    ensures
        ({
            let after = factory_after(e, book, key, allowed).0;
            &&& after.world.tiles.dom() == e.world.tiles.dom()
            &&& after.base.dom() == e.base.dom()
            &&& after.world.footprint == e.world.footprint
            &&& after.cores.dom() == e.cores.dom()
            &&& after.capacity == e.capacity
            &&& other != key ==> after.world.tiles[other] == e.world.tiles[other]
                && after.base[other] == e.base[other]
            &&& after.world.tiles[key].team == e.world.tiles[key].team
            &&& after.world.tiles[key].block == e.world.tiles[key].block
            &&& after.base[key].team == e.base[key].team
            &&& after.base[key].block == e.base[key].block
            &&& team_at(e, key) != Some(team) ==> after.cores[team as i32] == e.cores[team as i32]
        }),
{
    let after = factory_after(e, book, key, allowed).0;
    assert(after.world.tiles.dom() =~= e.world.tiles.dom());
    assert(after.base.dom() =~= e.base.dom());
    assert(after.cores.dom() =~= e.cores.dom());
}

/// The team of the building under `key`: the one on the map, or else the one that came with
/// it.
pub open spec fn team_at(e: EconomyView, key: i32) -> Option<u8> {
    if e.world.tiles.dom().contains(key) {
        Some(e.world.tiles[key].team)
    } else if e.base.dom().contains(key) {
        Some(e.base[key].team)
    } else {
        None
    }
}

/// Factories that do not run, and the cores of teams of which none runs, stay as they are.
pub proof fn law_other_factories_stay(
    e: EconomyView,
    book: Seq<(i16, RecipeView)>,
    due: Map<i32, u32>,
    keys: Seq<i32>,
    other: i32,
    team: u8,
)
    ensures
        ({
            let after = factories_after(e, book, due, keys);
            &&& after.world.tiles.dom() == e.world.tiles.dom()
            &&& after.base.dom() == e.base.dom()
            &&& after.world.footprint == e.world.footprint
            &&& after.cores.dom() == e.cores.dom()
            &&& after.capacity == e.capacity
            &&& team_at(after, other) == team_at(e, other)
            &&& !keys.contains(other) ==> after.world.tiles[other] == e.world.tiles[other]
                && after.base[other] == e.base[other]
            &&& (forall|i: int| 0 <= i < keys.len() ==> team_at(e, #[trigger] keys[i]) != Some(team))
                ==> after.cores[team as i32] == e.cores[team as i32]
        }),
    decreases keys.len(),
{
    if keys.len() > 0 {
        let front = keys.drop_last();
        let key = keys.last();
        law_other_factories_stay(e, book, due, front, other, team);
        law_other_factories_stay(e, book, due, front, key, team);
        let mid = factories_after(e, book, due, front);
        lemma_one_factory(mid, book, key, cycles_due(due, key), other, team);
        assert(keys[keys.len() - 1] == key);
        if !keys.contains(other) {
            assert(!front.contains(other)) by {
                if front.contains(other) {
                    let i = choose|i: int| 0 <= i < front.len() && front[i] == other;
                    assert(keys[i] == other);
                }
            }
        }
        if forall|i: int| 0 <= i < keys.len() ==> team_at(e, #[trigger] keys[i]) != Some(team) {
            assert forall|i: int| 0 <= i < front.len() implies team_at(e, #[trigger] front[i])
                != Some(team) by {
                assert(front[i] == keys[i]);
            }
        }
    }
}

proof fn lemma_later_factories(
    e: EconomyView,
    book: Seq<(i16, RecipeView)>,
    due: Map<i32, u32>,
    keys: Seq<i32>,
    n: int,
    key: i32,
    team: u8,
)
    requires
        0 <= n <= keys.len(),
        forall|i: int| n <= i < keys.len() ==> keys[i] != key,
    ensures
        ({
            let mid = factories_after(e, book, due, keys.take(n));
            let after = factories_after(e, book, due, keys);
            &&& after.world.tiles[key] == mid.world.tiles[key]
            &&& after.base[key] == mid.base[key]
            &&& (forall|i: int|
                n <= i < keys.len() ==> team_at(e, #[trigger] keys[i]) != Some(team))
                ==> after.cores[team as i32] == mid.cores[team as i32]
        }),
    decreases keys.len(),
{
    if n == keys.len() {
        assert(keys.take(n) =~= keys);
    } else {
        let front = keys.drop_last();
        let last = keys.last();
        assert forall|i: int| n <= i < front.len() implies front[i] != key by {
            assert(front[i] == keys[i]);
        }
        lemma_later_factories(e, book, due, front, n, key, team);
        assert(front.take(n) =~= keys.take(n));
        let mid = factories_after(e, book, due, front);
        law_other_factories_stay(e, book, due, front, last, team);
        assert(keys[keys.len() - 1] == last);
        lemma_one_factory(mid, book, last, cycles_due(due, last), key, team);
        if forall|i: int| n <= i < keys.len() ==> team_at(e, #[trigger] keys[i]) != Some(team) {
            assert forall|i: int| n <= i < front.len() implies team_at(e, #[trigger] front[i])
                != Some(team) by {
                assert(front[i] == keys[i]);
            }
        }
    }
}

/// Every factory does its crafts in its turn: on what those before it left, with its own
/// building as it was, and with the cycles that it is due and no others. What it did stands
/// at the end: its building as it left it, and the core of its team unless a later factory of
/// that team works on. As many crafts are reported as it did.
pub proof fn law_each_factory_has_its_turn(
    e: EconomyView,
    book: Seq<(i16, RecipeView)>,
    due: Map<i32, u32>,
    keys: Seq<i32>,
    i: int,
)
    requires
        keys.no_duplicates(),
        0 <= i < keys.len(),
    ensures
        ({
            let key = keys[i];
            let before = factories_after(e, book, due, keys.take(i));
            let allowed: u32 = if due.dom().contains(key) { due[key] } else { 0 };
            let (turn, k) = factory_after(before, book, key, allowed);
            let after = factories_after(e, book, due, keys);
            &&& before.world.tiles[key] == e.world.tiles[key]
            &&& before.base[key] == e.base[key]
            &&& i == 0 ==> before == e
            &&& after.world.tiles[key] == turn.world.tiles[key]
            &&& after.base[key] == turn.base[key]
            &&& forall|team: u8|
                (forall|j: int|
                    i < j < keys.len() ==> team_at(e, #[trigger] keys[j]) != Some(team))
                    ==> #[trigger] after.cores[team as i32] == turn.cores[team as i32]
            &&& crafts_after(e, book, due, keys).len() == keys.len()
            &&& crafts_after(e, book, due, keys)[i] == (key, k)
        }),
{
    let key = keys[i];
    let head = keys.take(i);
    assert(!head.contains(key)) by {
        if head.contains(key) {
            let j = choose|j: int| 0 <= j < head.len() && head[j] == key;
            assert(keys[j] == keys[i]);
        }
    }
    law_other_factories_stay(e, book, due, head, key, 0);
    if i == 0 {
        assert(head =~= Seq::empty());
    }
    let grown = keys.take(i + 1);
    assert(grown.drop_last() =~= head);
    assert(grown.last() == key);
    assert forall|j: int| i + 1 <= j < keys.len() implies keys[j] != key by {
        assert(keys[j] != keys[i]);
    }
    let after = factories_after(e, book, due, keys);
    let turn = factories_after(e, book, due, grown);
    lemma_later_factories(e, book, due, keys, i + 1, key, 0);
    assert forall|team: u8|
        (forall|j: int| i < j < keys.len() ==> team_at(e, #[trigger] keys[j]) != Some(team))
            implies #[trigger] after.cores[team as i32] == turn.cores[team as i32] by {
        lemma_later_factories(e, book, due, keys, i + 1, key, team);
    }
}

} // verus!
