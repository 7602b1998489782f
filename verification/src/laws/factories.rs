//! What a craft takes and gives, counted item by item.

use crate::production::{
    added, affordable, core_holds, crafted, crafted_once, deposited, drawn, held, law_added,
    law_removed, lemma_absent, lemma_drawn_is_sound, lemma_drawn_splits, lemma_missing_is_distinct,
    lemma_slot, lemma_slot_is, lemma_spent, lemma_wanted_at, lemma_wanted_none, removed, slot_of,
    sound, spent, total, wanted, Output, RecipeView,
};
use vstd::prelude::*;

verus! {

/// The larger of two numbers.
pub open spec fn most(a: int, b: int) -> int {
    if a < b { b } else { a }
}

/// The smaller of two numbers.
pub open spec fn least(a: int, b: int) -> int {
    if a < b { a } else { b }
}

// ---------------------------------------------------------------------------
// Inventories.

/// The count of an item is that of the slot that it stands in, and nothing where it stands
/// in none.
pub proof fn law_count_is_that_of_the_slot(inventory: Seq<(i16, i32)>, item: i16, at: int)
    requires
        sound(inventory),
    ensures
        0 <= at < inventory.len() ==> held(inventory, inventory[at].0) == inventory[at].1,
        (forall|i: int| 0 <= i < inventory.len() ==> (#[trigger] inventory[i]).0 != item) ==> held(
            inventory,
            item,
        ) == 0,
        held(inventory, item) >= 0,
{
    lemma_slot(inventory, item);
    if 0 <= at < inventory.len() {
        lemma_slot_is(inventory, inventory[at].0, at);
    }
    if forall|i: int| 0 <= i < inventory.len() ==> (#[trigger] inventory[i]).0 != item {
        lemma_absent(inventory, item);
    }
}

proof fn lemma_total_of_joined(a: Seq<(i16, i32)>, b: Seq<(i16, i32)>)
    ensures
        total(a + b) == total(a) + total(b),
    decreases b.len(),
{
    if b.len() == 0 {
        assert(a + b =~= a);
    } else {
        assert((a + b).drop_last() =~= a + b.drop_last());
        lemma_total_of_joined(a, b.drop_last());
    }
}

proof fn lemma_total_of_one(entry: (i16, i32))
    ensures
        total(seq![entry]) == entry.1,
{
    let one = seq![entry];
    assert(one.drop_last() =~= Seq::empty());
    assert(total(one.drop_last()) == 0);
}

proof fn lemma_total_of_parts(inventory: Seq<(i16, i32)>, at: int)
    requires
        0 <= at < inventory.len(),
    ensures
        total(inventory) == total(inventory.take(at)) + inventory[at].1 + total(
            inventory.skip(at + 1),
        ),
{
    let (head, tail) = (inventory.take(at), inventory.skip(at + 1));
    let one = seq![inventory[at]];
    assert(inventory =~= head + one + tail);
    lemma_total_of_joined(head + one, tail);
    lemma_total_of_joined(head, one);
    lemma_total_of_one(inventory[at]);
}

/// An inventory holds nothing when it is empty, and as much as its two parts when it is
/// joined of two. What is put in makes it hold that much more, what is taken out that much
/// less.
pub proof fn law_total_follows_what_goes_in_and_out(
    inventory: Seq<(i16, i32)>,
    other: Seq<(i16, i32)>,
    item: i16,
    amount: int,
)
    requires
        0 < amount <= i32::MAX,
    ensures
        total(Seq::empty()) == 0,
        total(inventory + other) == total(inventory) + total(other),
        held(inventory, item) + amount <= i32::MAX ==> total(added(inventory, item, amount))
            == total(inventory) + amount,
        amount <= held(inventory, item) ==> total(removed(inventory, item, amount)) == total(
            inventory,
        ) - amount,
{
    lemma_total_of_joined(inventory, other);
    lemma_slot(inventory, item);
    let at = slot_of(inventory, item);
    if held(inventory, item) + amount <= i32::MAX {
        let after = added(inventory, item, amount);
        if at < inventory.len() {
            lemma_total_of_parts(inventory, at);
            lemma_total_of_parts(after, at);
            assert(after.take(at) =~= inventory.take(at));
            assert(after.skip(at + 1) =~= inventory.skip(at + 1));
        } else {
            assert(after =~= inventory + seq![(item, amount as i32)]);
            lemma_total_of_joined(inventory, seq![(item, amount as i32)]);
            lemma_total_of_one((item, amount as i32));
        }
    }
    if amount <= held(inventory, item) {
        let after = removed(inventory, item, amount);
        lemma_total_of_parts(inventory, at);
        if inventory[at].1 == amount {
            assert(after =~= inventory.take(at) + inventory.skip(at + 1));
            lemma_total_of_joined(inventory.take(at), inventory.skip(at + 1));
        } else {
            lemma_total_of_parts(after, at);
            assert(after.take(at) =~= inventory.take(at));
            assert(after.skip(at + 1) =~= inventory.skip(at + 1));
        }
    }
}

// ---------------------------------------------------------------------------
// Deliveries.

/// A delivery raises the count of its item by the amount, up to the capacity; a count that
/// is beyond the capacity already stays. No other count changes, and an item that the core
/// does not know changes none.
pub proof fn law_delivery_raises_one_count(
    core: Seq<i32>,
    item: i16,
    amount: int,
    capacity: i32,
    other: i16,
)
    requires
        0 <= amount <= i32::MAX,
    ensures
        ({
            let after = deposited(core, item, amount, capacity);
            &&& after.len() == core.len()
            &&& 0 <= item < core.len() ==> core_holds(after, item) == least(
                core_holds(core, item) + amount,
                most(core_holds(core, item), capacity as int),
            )
            &&& other != item ==> core_holds(after, other) == core_holds(core, other)
            &&& !(0 <= item < core.len()) ==> after == core
        }),
{
}

/// A core counts the items by their numbers, and none that it has no number for.
pub proof fn law_core_counts_by_number(core: Seq<i32>, item: i16)
    ensures
        0 <= item < core.len() ==> core_holds(core, item) == core[item as int],
        item < 0 || item >= core.len() ==> core_holds(core, item) == 0,
{
}

// ---------------------------------------------------------------------------
// Crafts.

/// What of an item is needed beyond what the building holds.
proof fn lemma_drawn_first(inventory: Seq<(i16, i32)>, inputs: Seq<(i16, i32)>, item: i16)
    requires
        sound(inventory),
        forall|i: int| 0 <= i < inputs.len() ==> (#[trigger] inputs[i]).1 > 0,
    ensures
        0 <= wanted(inputs, item),
        0 <= wanted(drawn(inventory, inputs).1, item),
        held(drawn(inventory, inputs).0, item) == 0 || wanted(drawn(inventory, inputs).1, item)
            == 0,
    decreases inputs.len(),
{
    if inputs.len() > 0 {
        let front = inputs.drop_last();
        assert forall|i: int| 0 <= i < front.len() implies (#[trigger] front[i]).1 > 0 by {
            assert(front[i] == inputs[i]);
        }
        lemma_drawn_first(inventory, front, item);
        lemma_drawn_is_sound(inventory, front);
        let (local, missing) = drawn(inventory, front);
        let (what, amount) = inputs.last();
        assert(inputs[inputs.len() - 1].1 > 0);
        let owned = if held(local, what) < amount { held(local, what) } else { amount as int };
        assert(0 <= held(local, what));
        assert(0 <= held(local, item));
        if owned > 0 {
            law_removed(local, what, owned, item);
        }
        if owned < amount {
            let more = missing.push((what, (amount - owned) as i32));
            assert(more.drop_last() =~= missing);
        }
    }
}

proof fn lemma_drawn_counts(inventory: Seq<(i16, i32)>, inputs: Seq<(i16, i32)>, item: i16)
    requires
        sound(inventory),
        forall|i: int| 0 <= i < inputs.len() ==> (#[trigger] inputs[i]).1 > 0,
    ensures
        0 <= wanted(inputs, item),
        held(drawn(inventory, inputs).0, item) == most(
            held(inventory, item) - wanted(inputs, item),
            0,
        ),
        wanted(drawn(inventory, inputs).1, item) == most(
            wanted(inputs, item) - held(inventory, item),
            0,
        ),
{
    lemma_drawn_first(inventory, inputs, item);
    lemma_drawn_splits(inventory, inputs, item);
    lemma_drawn_is_sound(inventory, inputs);
    assert(0 <= held(drawn(inventory, inputs).0, item));
}

proof fn lemma_spent_counts(core: Seq<i32>, missing: Seq<(i16, i32)>, item: i16)
    requires
        affordable(core, missing),
        forall|i: int| 0 <= i < missing.len() ==> (#[trigger] missing[i]).1 > 0,
        forall|i: int, j: int|
            0 <= i < j < missing.len() ==> (#[trigger] missing[i]).0 != (#[trigger] missing[j]).0,
    ensures
        spent(core, missing).len() == core.len(),
        core_holds(spent(core, missing), item) == core_holds(core, item) - wanted(missing, item),
{
    lemma_spent(core, missing);
    if exists|i: int| 0 <= i < missing.len() && (#[trigger] missing[i]).0 == item {
        let i = choose|i: int| 0 <= i < missing.len() && (#[trigger] missing[i]).0 == item;
        lemma_wanted_at(missing, i);
    } else {
        lemma_wanted_none(missing, item);
    }
}

/// Whether the building and the core together have each input of the recipe.
pub open spec fn inputs_are_there(
    inventory: Seq<(i16, i32)>,
    core: Seq<i32>,
    recipe: RecipeView,
) -> bool {
    forall|i: int|
        0 <= i < recipe.inputs.len() ==> {
            let (item, amount) = #[trigger] recipe.inputs[i];
            held(inventory, item) >= amount || held(inventory, item) + core_holds(core, item)
                >= amount
        }
}

proof fn lemma_affordable(inventory: Seq<(i16, i32)>, core: Seq<i32>, recipe: RecipeView)
    requires
        sound(inventory),
        recipe.wf(),
    ensures
        affordable(core, drawn(inventory, recipe.inputs).1) <==> inputs_are_there(
            inventory,
            core,
            recipe,
        ),
{
    let inputs = recipe.inputs;
    let missing = drawn(inventory, inputs).1;
    lemma_drawn_is_sound(inventory, inputs);
    lemma_missing_is_distinct(inventory, inputs);
    if affordable(core, missing) {
        assert forall|i: int| 0 <= i < inputs.len() implies ({
            let (item, amount) = #[trigger] inputs[i];
            held(inventory, item) >= amount || held(inventory, item) + core_holds(core, item)
                >= amount
        }) by {
            let (item, amount) = inputs[i];
            lemma_drawn_counts(inventory, inputs, item);
            lemma_wanted_at(inputs, i);
            if held(inventory, item) < amount {
                if forall|j: int| 0 <= j < missing.len() ==> (#[trigger] missing[j]).0 != item {
                    lemma_wanted_none(missing, item);
                } else {
                    let j = choose|j: int|
                        0 <= j < missing.len() && (#[trigger] missing[j]).0 == item;
                    lemma_wanted_at(missing, j);
                }
            }
        }
    }
    if inputs_are_there(inventory, core, recipe) {
        assert forall|j: int| 0 <= j < missing.len() implies core_holds(
            core,
            (#[trigger] missing[j]).0,
        ) >= missing[j].1 by {
            let item = missing[j].0;
            let i = choose|i: int| 0 <= i < inputs.len() && (#[trigger] inputs[i]).0 == item;
            lemma_drawn_counts(inventory, inputs, item);
            lemma_wanted_at(inputs, i);
            lemma_wanted_at(missing, j);
            assert(missing[j].1 > 0);
        }
    }
}

/// A craft is done exactly when the building and the core together have the inputs.
///
/// Of each input the building gives what it has, and the core the rest. A building that
/// keeps its output holds the output amount more of the output item than what is left after
/// that. Where it delivers, the core holds that much more of it, up to its capacity. No
/// other item becomes more.
pub proof fn law_craft_gives_the_output(
    inventory: Seq<(i16, i32)>,
    core: Seq<i32>,
    recipe: RecipeView,
    to: Output,
    item: i16,
)
    requires
        sound(inventory),
        recipe.wf(),
        to is Own ==> held(inventory, recipe.output.0) + recipe.output.1 <= i32::MAX,
    ensures
        crafted_once(inventory, core, recipe, to) is Some <==> inputs_are_there(
            inventory,
            core,
            recipe,
        ),
        crafted_once(inventory, core, recipe, to) matches Some((i, c)) ==> {
            let need = wanted(recipe.inputs, item);
            let left = most(held(inventory, item) - need, 0);
            let unspent = core_holds(core, item) - most(need - held(inventory, item), 0);
            let made: int = if item == recipe.output.0 { recipe.output.1 as int } else { 0 };
            &&& sound(i)
            &&& c.len() == core.len()
            &&& match to {
                Output::Own => held(i, item) == left + made && core_holds(c, item) == unspent,
                Output::Core(capacity) => held(i, item) == left && core_holds(c, item) == if 0
                    <= item < core.len() && made > 0 {
                    least(unspent + made, most(unspent, capacity as int))
                } else {
                    unspent
                },
            }
        },
{
    let (local, missing) = drawn(inventory, recipe.inputs);
    lemma_affordable(inventory, core, recipe);
    lemma_drawn_is_sound(inventory, recipe.inputs);
    lemma_missing_is_distinct(inventory, recipe.inputs);
    lemma_drawn_counts(inventory, recipe.inputs, item);
    if affordable(core, missing) {
        lemma_spent_counts(core, missing, item);
        let out = recipe.output.0;
        assert(0 <= held(local, out) <= held(inventory, out));
        match to {
            Output::Own => {
                law_added(local, out, recipe.output.1 as int, item);
            },
            Output::Core(capacity) => {
                law_delivery_raises_one_count(
                    spent(core, missing),
                    out,
                    recipe.output.1 as int,
                    capacity,
                    item,
                );
            },
        }
    }
}

/// Crafting goes on until the cycles are used up or the inputs are not there.
///
/// Each craft takes the inputs once and gives the output once: building and core together
/// have so many times the inputs less. A building that keeps its output has so many times the
/// output more; what is delivered raises the count of the core so many times, up to its
/// capacity.
pub proof fn law_crafts_repeat(
    inventory: Seq<(i16, i32)>,
    core: Seq<i32>,
    recipe: RecipeView,
    to: Output,
    n: nat,
    item: i16,
)
    requires
        sound(inventory),
        recipe.wf(),
        to is Own ==> held(inventory, recipe.output.0) + recipe.output.1 * n <= i32::MAX,
    ensures
        ({
            let (i, c, k) = crafted(inventory, core, recipe, to, n);
            let before = held(inventory, item) + core_holds(core, item);
            let after = held(i, item) + core_holds(c, item);
            let out = recipe.output.0;
            &&& sound(i)
            &&& c.len() == core.len()
            &&& k <= n
            &&& k < n ==> !inputs_are_there(i, c, recipe)
            &&& n > 0 && inputs_are_there(inventory, core, recipe) ==> k > 0
            &&& k == 0 ==> i == inventory && c == core
            &&& item != out ==> after == before - k * wanted(recipe.inputs, item)
            &&& item == out && to is Own ==> after == before - k * wanted(recipe.inputs, item) + k
                * recipe.output.1
            &&& item == out && wanted(recipe.inputs, item) == 0 && 0 <= item < core.len() ==> (
            to matches Output::Core(capacity) ==> held(i, item) == held(inventory, item)
                && core_holds(c, item) == least(
                core_holds(core, item) + k * recipe.output.1,
                most(core_holds(core, item), capacity as int),
            ))
        }),
    decreases n,
{
    let out = recipe.output.0;
    let made = recipe.output.1 as int;
    let need = wanted(recipe.inputs, item);
    if n > 0 {
        assert(made * n == made + made * (n - 1)) by (nonlinear_arith);
        assert(made * (n - 1) >= 0) by (nonlinear_arith)
            requires
                made > 0,
                n >= 1,
        ;
        law_craft_gives_the_output(inventory, core, recipe, to, item);
        law_craft_gives_the_output(inventory, core, recipe, to, out);
        lemma_drawn_counts(inventory, recipe.inputs, item);
        lemma_drawn_counts(inventory, recipe.inputs, out);
        law_count_is_that_of_the_slot(inventory, out, 0);
        law_count_is_that_of_the_slot(inventory, item, 0);
        if let Some((i, c)) = crafted_once(inventory, core, recipe, to) {
            law_crafts_repeat(i, c, recipe, to, (n - 1) as nat, item);
            let rest = crafted(i, c, recipe, to, (n - 1) as nat);
            let k = rest.2;
            assert((k + 1) * need == k * need + need) by (nonlinear_arith);
            assert((k + 1) * made == k * made + made) by (nonlinear_arith);
            assert(k * made >= 0) by (nonlinear_arith)
                requires
                    made > 0,
                    k >= 0,
            ;
        }
    }
    assert(0 * need == 0) by (nonlinear_arith);
    assert(0 * made == 0) by (nonlinear_arith);
}

} // verus!
