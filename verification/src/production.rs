//! Inventories, factories and drills.
//!
//! Progress is counted outside, in single-precision ticks: a call says how often a
//! building may work, and the rules here say what each time takes and gives.

use crate::conveyor::copy_inventory;
use vstd::prelude::*;

verus! {

// ---------------------------------------------------------------------------
// Inventories.

/// Where an item stands in an inventory, or the end.
pub open spec fn slot_of(inventory: Seq<(i16, i32)>, item: i16) -> int
    decreases inventory.len(),
{
    if inventory.len() == 0 || inventory[0].0 == item {
        0
    } else {
        1 + slot_of(inventory.skip(1), item)
    }
}

/// How many of an item an inventory holds.
pub open spec fn held(inventory: Seq<(i16, i32)>, item: i16) -> int {
    if slot_of(inventory, item) < inventory.len() {
        inventory[slot_of(inventory, item)].1 as int
    } else {
        0
    }
}

/// How many items an inventory holds in all.
pub open spec fn total(inventory: Seq<(i16, i32)>) -> int
    decreases inventory.len(),
{
    if inventory.len() == 0 {
        0
    } else {
        total(inventory.drop_last()) + inventory.last().1
    }
}

/// The inventory with more of an item.
pub open spec fn added(inventory: Seq<(i16, i32)>, item: i16, amount: int) -> Seq<(i16, i32)> {
    let at = slot_of(inventory, item);
    if at < inventory.len() {
        inventory.update(at, (item, (inventory[at].1 + amount) as i32))
    } else {
        inventory.push((item, amount as i32))
    }
}

/// The inventory with less of an item; an item that is used up leaves it.
pub open spec fn removed(inventory: Seq<(i16, i32)>, item: i16, amount: int) -> Seq<(i16, i32)> {
    let at = slot_of(inventory, item);
    if inventory[at].1 == amount {
        inventory.remove(at)
    } else {
        inventory.update(at, (item, (inventory[at].1 - amount) as i32))
    }
}

/// Every item stands in one slot, and no slot holds less than nothing.
pub open spec fn sound(inventory: Seq<(i16, i32)>) -> bool {
    &&& forall|i: int| 0 <= i < inventory.len() ==> (#[trigger] inventory[i]).1 >= 0
    &&& forall|i: int, j: int|
        0 <= i < j < inventory.len() ==> (#[trigger] inventory[i]).0 != (#[trigger] inventory[j]).0
}

pub proof fn lemma_slot(inventory: Seq<(i16, i32)>, item: i16)
    ensures
        0 <= slot_of(inventory, item) <= inventory.len(),
        slot_of(inventory, item) < inventory.len() ==> inventory[slot_of(inventory, item)].0
            == item,
        forall|i: int|
            0 <= i < slot_of(inventory, item) ==> (#[trigger] inventory[i]).0 != item,
    decreases inventory.len(),
{
    if inventory.len() > 0 && inventory[0].0 != item {
        lemma_slot(inventory.skip(1), item);
        assert forall|i: int| 0 <= i < slot_of(inventory, item) implies (
        #[trigger] inventory[i]).0 != item by {
            if i > 0 {
                assert(inventory.skip(1)[i - 1] == inventory[i]);
            }
        }
    }
}

/// In a sound inventory the slot of an item is the only one with that item.
pub proof fn lemma_slot_is(inventory: Seq<(i16, i32)>, item: i16, at: int)
    requires
        sound(inventory),
        0 <= at < inventory.len(),
        inventory[at].0 == item,
    ensures
        slot_of(inventory, item) == at,
{
    lemma_slot(inventory, item);
}

pub proof fn lemma_absent(inventory: Seq<(i16, i32)>, item: i16)
    requires
        forall|i: int| 0 <= i < inventory.len() ==> (#[trigger] inventory[i]).0 != item,
    ensures
        slot_of(inventory, item) == inventory.len(),
{
    lemma_slot(inventory, item);
}

/// Adding changes one item by the amount and no other.
pub proof fn law_added(inventory: Seq<(i16, i32)>, item: i16, amount: int, other: i16)
    requires
        sound(inventory),
        0 <= amount,
        held(inventory, item) + amount <= i32::MAX,
    ensures
        sound(added(inventory, item, amount)),
        held(added(inventory, item, amount), other) == held(inventory, other) + if other == item {
            amount
        } else {
            0
        },
{
    lemma_slot(inventory, item);
    lemma_slot(inventory, other);
    let out = added(inventory, item, amount);
    let at = slot_of(inventory, item);
    assert(sound(out));
    let k = slot_of(inventory, other);
    if other == item {
        lemma_slot_is(out, item, at);
    } else if k < inventory.len() {
        assert(out[k] == inventory[k]);
        lemma_slot_is(out, other, k);
    } else {
        assert forall|i: int| 0 <= i < out.len() implies (#[trigger] out[i]).0 != other by {
            if i < inventory.len() {
                assert(inventory[i].0 == out[i].0);
            }
        }
        lemma_absent(out, other);
    }
}

/// Taking out changes one item by the amount and no other.
pub proof fn law_removed(inventory: Seq<(i16, i32)>, item: i16, amount: int, other: i16)
    requires
        sound(inventory),
        0 < amount <= held(inventory, item),
    ensures
        sound(removed(inventory, item, amount)),
        held(removed(inventory, item, amount), other) == held(inventory, other) - if other
            == item {
            amount
        } else {
            0
        },
{
    lemma_slot(inventory, item);
    lemma_slot(inventory, other);
    let out = removed(inventory, item, amount);
    let at = slot_of(inventory, item);
    let gone = inventory[at].1 == amount;
    assert forall|i: int| 0 <= i < out.len() implies (#[trigger] out[i]) == if gone && i >= at {
        inventory[i + 1]
    } else if i == at {
        (item, (inventory[at].1 - amount) as i32)
    } else {
        inventory[i]
    } by {}
    assert(sound(out));
    let k = slot_of(inventory, other);
    if other == item {
        if gone {
            assert forall|i: int| 0 <= i < out.len() implies (#[trigger] out[i]).0 != item by {
                let source = if i >= at { i + 1 } else { i };
                assert(inventory[source].0 != inventory[at].0);
            }
            lemma_absent(out, item);
        } else {
            lemma_slot_is(out, item, at);
        }
    } else if k < inventory.len() {
        let moved = if gone && k > at { k - 1 } else { k };
        assert(out[moved] == inventory[k]);
        lemma_slot_is(out, other, moved);
    } else {
        assert forall|i: int| 0 <= i < out.len() implies (#[trigger] out[i]).0 != other by {
            let source = if gone && i >= at { i + 1 } else { i };
            assert(inventory[source].0 != other);
        }
        lemma_absent(out, other);
    }
}

fn find_slot(inventory: &Vec<(i16, i32)>, item: i16) -> (r: usize)
    ensures
        r == slot_of(inventory@, item),
        r <= inventory@.len(),
{
    let mut i: usize = 0;
    assert(inventory@.skip(0) =~= inventory@);
    while i < inventory.len()
        invariant
            i <= inventory@.len(),
            slot_of(inventory@, item) == i + slot_of(inventory@.skip(i as int), item),
        decreases inventory@.len() - i,
    {
        if inventory[i].0 == item {
            return i;
        }
        assert(inventory@.skip(i as int).skip(1) =~= inventory@.skip(i + 1));
        i += 1;
    }
    i
}

/// How many of an item an inventory holds.
pub fn inventory_count(inventory: &Vec<(i16, i32)>, item: i16) -> (r: i32)
    ensures
        r == held(inventory@, item),
{
    let at: usize = find_slot(inventory, item);
    if at < inventory.len() { inventory[at].1 } else { 0 }
}

/// How many items an inventory holds in all.
pub fn inventory_total(inventory: &Vec<(i16, i32)>) -> (r: i64)
    requires
        inventory@.len() <= 0x7FFF_FFFF,
    ensures
        r == total(inventory@),
{
    let mut sum: i64 = 0;
    let mut i: usize = 0;
    assert(inventory@.take(0) =~= Seq::empty());
    while i < inventory.len()
        invariant
            i <= inventory@.len() <= 0x7FFF_FFFF,
            sum == total(inventory@.take(i as int)),
            -0x8000_0000 * i <= sum <= 0x7FFF_FFFF * i,
        decreases inventory@.len() - i,
    {
        assert(inventory@.take(i + 1).drop_last() =~= inventory@.take(i as int));
        sum = sum + inventory[i].1 as i64;
        i += 1;
    }
    assert(inventory@.take(i as int) =~= inventory@);
    sum
}

/// Puts `amount` of an item into an inventory.
pub fn inventory_add(inventory: &mut Vec<(i16, i32)>, item: i16, amount: i32)
    requires
        i32::MIN <= held(old(inventory)@, item) + amount <= i32::MAX,
    ensures
        final(inventory)@ == added(old(inventory)@, item, amount as int),
{
    let at: usize = find_slot(inventory, item);
    if at < inventory.len() {
        let grown: i32 = inventory[at].1 + amount;
        inventory.set(at, (item, grown));
    } else {
        inventory.push((item, amount));
    }
}

/// Takes `amount` of an item out of an inventory, all of it or nothing.
pub fn inventory_remove(inventory: &mut Vec<(i16, i32)>, item: i16, amount: i32) -> (r: bool)
    requires
        amount > 0,
    ensures
        r == (held(old(inventory)@, item) >= amount),
        final(inventory)@ == if r {
            removed(old(inventory)@, item, amount as int)
        } else {
            old(inventory)@
        },
{
    let at: usize = find_slot(inventory, item);
    if at >= inventory.len() || inventory[at].1 < amount {
        return false;
    }
    let left: i32 = inventory[at].1 - amount;
    if left == 0 {
        inventory.remove(at);
    } else {
        inventory.set(at, (item, left));
    }
    true
}

// ---------------------------------------------------------------------------
// Recipes.

/// What a factory takes and gives, and how long it works.
pub struct FactoryRecipe {
    pub inputs: Vec<(i16, i32)>,
    pub output: (i16, i32),
    /// Ticks, as the bits of a single-precision number.
    pub craft_time: u32,
}

/// The contents of a [`FactoryRecipe`].
pub struct RecipeView {
    pub inputs: Seq<(i16, i32)>,
    pub output: (i16, i32),
    pub craft_time: u32,
}

impl View for FactoryRecipe {
    type V = RecipeView;

    open spec fn view(&self) -> RecipeView {
        RecipeView {
            inputs: self.inputs@,
            output: self.output,
            craft_time: self.craft_time,
        }
    }
}

impl RecipeView {
    /// Amounts are positive, and no input is listed twice.
    pub open spec fn wf(self) -> bool {
        &&& self.output.1 > 0
        &&& forall|i: int| 0 <= i < self.inputs.len() ==> (#[trigger] self.inputs[i]).1 > 0
        &&& forall|i: int, j: int|
            0 <= i < j < self.inputs.len() ==> (#[trigger] self.inputs[i]).0 != (
            #[trigger] self.inputs[j]).0
    }
}

/// How much of an item a core holds. Items are numbered from 0.
pub open spec fn core_holds(core: Seq<i32>, item: i16) -> int {
    if 0 <= item < core.len() { core[item as int] as int } else { 0 }
}

/// The inventory after its own items have been used for the inputs, and what is still
/// missing from the core.
pub open spec fn drawn(inventory: Seq<(i16, i32)>, inputs: Seq<(i16, i32)>) -> (
    Seq<(i16, i32)>,
    Seq<(i16, i32)>,
)
    decreases inputs.len(),
{
    if inputs.len() == 0 {
        (inventory, Seq::empty())
    } else {
        let (local, missing) = drawn(inventory, inputs.drop_last());
        let (item, amount) = inputs.last();
        let owned = if held(local, item) < amount { held(local, item) } else { amount as int };
        (
            if owned > 0 { removed(local, item, owned) } else { local },
            if owned < amount { missing.push((item, (amount - owned) as i32)) } else { missing },
        )
    }
}

/// Whether the core covers each of the missing amounts.
pub open spec fn affordable(core: Seq<i32>, missing: Seq<(i16, i32)>) -> bool {
    forall|i: int|
        0 <= i < missing.len() ==> core_holds(core, (#[trigger] missing[i]).0) >= missing[i].1
}

/// The core after the missing amounts have been taken from it.
pub open spec fn spent(core: Seq<i32>, missing: Seq<(i16, i32)>) -> Seq<i32>
    decreases missing.len(),
{
    if missing.len() == 0 {
        core
    } else {
        let before = spent(core, missing.drop_last());
        let (item, amount) = missing.last();
        if 0 <= item < before.len() {
            before.update(item as int, (before[item as int] - amount) as i32)
        } else {
            before
        }
    }
}

/// The core after a delivery. It never holds more than `capacity` through one, and an item
/// that it does not know is lost.
pub open spec fn deposited(core: Seq<i32>, item: i16, amount: int, capacity: i32) -> Seq<i32> {
    if 0 <= item < core.len() {
        let now = core[item as int];
        let limit = if now > capacity { now } else { capacity };
        core.update(
            item as int,
            if now + amount > limit { limit } else { (now + amount) as i32 },
        )
    } else {
        core
    }
}

/// Where a factory puts what it made.
#[derive(Clone, Copy, Debug, PartialEq, Eq, Structural)]
pub enum Output {
    /// Into its own inventory.
    Own,
    /// Into the core of its team, which holds this much of an item.
    Core(i32),
}

/// An inventory and a core after one craft, or nothing when the inputs are not there.
pub open spec fn crafted_once(
    inventory: Seq<(i16, i32)>,
    core: Seq<i32>,
    recipe: RecipeView,
    to: Output,
) -> Option<(Seq<(i16, i32)>, Seq<i32>)> {
    let (local, missing) = drawn(inventory, recipe.inputs);
    if !affordable(core, missing) {
        None
    } else {
        let paid = spent(core, missing);
        match to {
            Output::Own => Some((added(local, recipe.output.0, recipe.output.1 as int), paid)),
            Output::Core(capacity) => Some(
                (local, deposited(paid, recipe.output.0, recipe.output.1 as int, capacity)),
            ),
        }
    }
}

/// An inventory and a core after at most `n` crafts, and how many there were. The first one
/// that cannot be paid ends it.
pub open spec fn crafted(
    inventory: Seq<(i16, i32)>,
    core: Seq<i32>,
    recipe: RecipeView,
    to: Output,
    n: nat,
) -> (Seq<(i16, i32)>, Seq<i32>, nat)
    decreases n,
{
    if n == 0 {
        (inventory, core, 0)
    } else {
        match crafted_once(inventory, core, recipe, to) {
            None => (inventory, core, 0),
            Some((i, c)) => {
                let rest = crafted(i, c, recipe, to, (n - 1) as nat);
                (rest.0, rest.1, rest.2 + 1)
            },
        }
    }
}

pub proof fn lemma_drawn_is_sound(inventory: Seq<(i16, i32)>, inputs: Seq<(i16, i32)>)
    requires
        sound(inventory),
        forall|i: int| 0 <= i < inputs.len() ==> (#[trigger] inputs[i]).1 > 0,
    ensures
        sound(drawn(inventory, inputs).0),
        forall|item: i16| #![trigger held(drawn(inventory, inputs).0, item)]
            0 <= held(drawn(inventory, inputs).0, item) <= held(inventory, item),
        forall|i: int|
            0 <= i < drawn(inventory, inputs).1.len() ==> (#[trigger] drawn(
                inventory,
                inputs,
            ).1[i]).1 > 0 && exists|j: int|
                0 <= j < inputs.len() && (#[trigger] inputs[j]).0 == drawn(
                    inventory,
                    inputs,
                ).1[i].0,
    decreases inputs.len(),
{
    if inputs.len() == 0 {
        assert forall|item: i16| #![trigger held(drawn(inventory, inputs).0, item)]
            0 <= held(inventory, item) by {
            lemma_slot(inventory, item);
        }
    } else {
        let front = inputs.drop_last();
        assert forall|i: int| 0 <= i < front.len() implies (#[trigger] front[i]).1 > 0 by {
            assert(front[i] == inputs[i]);
        }
        lemma_drawn_is_sound(inventory, front);
        let (local, missing) = drawn(inventory, front);
        let (item, amount) = inputs.last();
        let owned = if held(local, item) < amount { held(local, item) } else { amount as int };
        let out = drawn(inventory, inputs);
        assert(inputs[inputs.len() - 1].1 > 0);
        assert(0 <= held(local, item));
        assert forall|other: i16| #![trigger held(out.0, other)]
            0 <= held(out.0, other) <= held(inventory, other) by {
            assert(0 <= held(local, other) <= held(inventory, other));
            if owned > 0 {
                law_removed(local, item, owned, other);
            }
        }
        if owned > 0 {
            law_removed(local, item, owned, item);
        }
        assert forall|i: int| 0 <= i < out.1.len() implies (#[trigger] out.1[i]).1 > 0
            && exists|j: int| 0 <= j < inputs.len() && (#[trigger] inputs[j]).0 == out.1[i].0 by {
            if i < missing.len() {
                assert(out.1[i] == missing[i]);
                let j = choose|j: int|
                    0 <= j < front.len() && (#[trigger] front[j]).0 == missing[i].0;
                assert(inputs[j] == front[j]);
            } else {
                assert(inputs[inputs.len() - 1].0 == out.1[i].0);
            }
        }
    }
}

/// Distinct inputs leave distinct missing items.
pub proof fn lemma_missing_is_distinct(inventory: Seq<(i16, i32)>, inputs: Seq<(i16, i32)>)
    requires
        sound(inventory),
        forall|i: int| 0 <= i < inputs.len() ==> (#[trigger] inputs[i]).1 > 0,
        forall|i: int, j: int|
            0 <= i < j < inputs.len() ==> (#[trigger] inputs[i]).0 != (#[trigger] inputs[j]).0,
    ensures
        forall|i: int, j: int|
            0 <= i < j < drawn(inventory, inputs).1.len() ==> (#[trigger] drawn(
                inventory,
                inputs,
            ).1[i]).0 != (#[trigger] drawn(inventory, inputs).1[j]).0,
    decreases inputs.len(),
{
    if inputs.len() > 0 {
        let front = inputs.drop_last();
        assert forall|i: int| 0 <= i < front.len() implies (#[trigger] front[i]).1 > 0 by {
            assert(front[i] == inputs[i]);
        }
        assert forall|i: int, j: int| 0 <= i < j < front.len() implies (#[trigger] front[i]).0
            != (#[trigger] front[j]).0 by {
            assert(front[i] == inputs[i] && front[j] == inputs[j]);
        }
        lemma_missing_is_distinct(inventory, front);
        lemma_drawn_is_sound(inventory, front);
        let missing = drawn(inventory, front).1;
        let out = drawn(inventory, inputs).1;
        assert forall|i: int, j: int| 0 <= i < j < out.len() implies (#[trigger] out[i]).0 != (
        #[trigger] out[j]).0 by {
            assert(out[i] == missing[i]);
            if j == missing.len() {
                let k = choose|k: int|
                    0 <= k < front.len() && (#[trigger] front[k]).0 == missing[i].0;
                assert(front[k] == inputs[k]);
                assert(inputs[k].0 != inputs[inputs.len() - 1].0);
            } else {
                assert(out[j] == missing[j]);
            }
        }
    }
}

/// Paying for distinct items takes each amount once and nothing else.
pub proof fn lemma_spent(core: Seq<i32>, missing: Seq<(i16, i32)>)
    requires
        affordable(core, missing),
        forall|i: int| 0 <= i < missing.len() ==> (#[trigger] missing[i]).1 > 0,
        forall|i: int, j: int|
            0 <= i < j < missing.len() ==> (#[trigger] missing[i]).0 != (#[trigger] missing[j]).0,
    ensures
        spent(core, missing).len() == core.len(),
        forall|i: int|
            0 <= i < missing.len() ==> core_holds(spent(core, missing), (#[trigger] missing[i]).0)
                == core_holds(core, missing[i].0) - missing[i].1,
        forall|item: i16|
            (forall|i: int| 0 <= i < missing.len() ==> (#[trigger] missing[i]).0 != item)
                ==> #[trigger] core_holds(spent(core, missing), item) == core_holds(core, item),
    decreases missing.len(),
{
    if missing.len() > 0 {
        let front = missing.drop_last();
        assert forall|i: int| 0 <= i < front.len() implies (#[trigger] front[i]).1 > 0
            && core_holds(core, front[i].0) >= front[i].1 by {
            assert(front[i] == missing[i]);
        }
        assert forall|i: int, j: int| 0 <= i < j < front.len() implies (#[trigger] front[i]).0
            != (#[trigger] front[j]).0 by {
            assert(front[i] == missing[i] && front[j] == missing[j]);
        }
        lemma_spent(core, front);
        let before = spent(core, front);
        let (item, amount) = missing.last();
        let out = spent(core, missing);
        assert(missing[missing.len() - 1].1 > 0);
        assert(core_holds(core, item) >= amount);
        assert(0 <= item < core.len());
        assert forall|i: int| 0 <= i < front.len() implies (#[trigger] front[i]).0 != item by {
            assert(front[i] == missing[i]);
            assert(missing[i].0 != missing[missing.len() - 1].0);
        }
        assert(core_holds(before, item) == core_holds(core, item));
        assert forall|i: int| 0 <= i < missing.len() implies core_holds(
            out,
            (#[trigger] missing[i]).0,
        ) == core_holds(core, missing[i].0) - missing[i].1 by {
            if i < front.len() {
                assert(front[i] == missing[i]);
                assert(core_holds(before, front[i].0) == core_holds(core, front[i].0)
                    - front[i].1);
            }
        }
        assert forall|other: i16|
            (forall|i: int| 0 <= i < missing.len() ==> (#[trigger] missing[i]).0 != other)
                implies #[trigger] core_holds(out, other) == core_holds(core, other) by {
            assert(missing[missing.len() - 1].0 != other);
            assert forall|i: int| 0 <= i < front.len() implies (#[trigger] front[i]).0
                != other by {
                assert(front[i] == missing[i]);
            }
            assert(core_holds(before, other) == core_holds(core, other));
        }
    }
}

fn draw_inputs(inventory: &Vec<(i16, i32)>, inputs: &Vec<(i16, i32)>) -> (r: (
    Vec<(i16, i32)>,
    Vec<(i16, i32)>,
))
    requires
        sound(inventory@),
        forall|i: int| 0 <= i < inputs@.len() ==> (#[trigger] inputs@[i]).1 > 0,
    ensures
        (r.0@, r.1@) == drawn(inventory@, inputs@),
{
    let mut local = copy_inventory(inventory);
    let mut missing: Vec<(i16, i32)> = Vec::new();
    let mut i: usize = 0;
    assert(inputs@.take(0) =~= Seq::empty());
    while i < inputs.len()
        invariant
            sound(inventory@),
            forall|i: int| 0 <= i < inputs@.len() ==> (#[trigger] inputs@[i]).1 > 0,
            i <= inputs@.len(),
            (local@, missing@) == drawn(inventory@, inputs@.take(i as int)),
        decreases inputs@.len() - i,
    {
        let ghost front = inputs@.take(i as int);
        proof {
            assert(inputs@.take(i + 1).drop_last() =~= front);
            assert forall|k: int| 0 <= k < front.len() implies (#[trigger] front[k]).1 > 0 by {
                assert(front[k] == inputs@[k]);
            }
            lemma_drawn_is_sound(inventory@, front);
        }
        let item: i16 = inputs[i].0;
        let amount: i32 = inputs[i].1;
        let there: i32 = inventory_count(&local, item);
        assert(0 <= held(drawn(inventory@, front).0, item));
        let owned: i32 = if there < amount { there } else { amount };
        if owned > 0 {
            inventory_remove(&mut local, item, owned);
        }
        if owned < amount {
            missing.push((item, amount - owned));
        }
        i += 1;
    }
    assert(inputs@.take(i as int) =~= inputs@);
    (local, missing)
}

fn core_amount(core: &Vec<i32>, item: i16) -> (r: i32)
    ensures
        r == core_holds(core@, item),
{
    if item >= 0 && (item as usize) < core.len() { core[item as usize] } else { 0 }
}

fn core_affords(core: &Vec<i32>, missing: &Vec<(i16, i32)>) -> (r: bool)
    ensures
        r == affordable(core@, missing@),
{
    let mut i: usize = 0;
    while i < missing.len()
        invariant
            i <= missing@.len(),
            forall|j: int|
                0 <= j < i ==> core_holds(core@, (#[trigger] missing@[j]).0) >= missing@[j].1,
        decreases missing@.len() - i,
    {
        if core_amount(core, missing[i].0) < missing[i].1 {
            assert(core_holds(core@, missing@[i as int].0) < missing@[i as int].1);
            return false;
        }
        i += 1;
    }
    true
}

fn spend_core(core: &mut Vec<i32>, missing: &Vec<(i16, i32)>)
    requires
        affordable(old(core)@, missing@),
        forall|i: int| 0 <= i < missing@.len() ==> (#[trigger] missing@[i]).1 > 0,
        forall|i: int, j: int|
            0 <= i < j < missing@.len() ==> (#[trigger] missing@[i]).0 != (
            #[trigger] missing@[j]).0,
    ensures
        final(core)@ == spent(old(core)@, missing@),
        final(core)@.len() == old(core)@.len(),
{
    let ghost start = core@;
    let mut i: usize = 0;
    assert(missing@.take(0) =~= Seq::empty());
    while i < missing.len()
        invariant
            start == old(core)@,
            affordable(start, missing@),
            forall|i: int| 0 <= i < missing@.len() ==> (#[trigger] missing@[i]).1 > 0,
            forall|i: int, j: int|
                0 <= i < j < missing@.len() ==> (#[trigger] missing@[i]).0 != (
                #[trigger] missing@[j]).0,
            i <= missing@.len(),
            core@ == spent(start, missing@.take(i as int)),
            core@.len() == start.len(),
        decreases missing@.len() - i,
    {
        let ghost front = missing@.take(i as int);
        let ghost grown = missing@.take(i + 1);
        let item: i16 = missing[i].0;
        let amount: i32 = missing[i].1;
        proof {
            assert(grown.drop_last() =~= front);
            assert forall|k: int| 0 <= k < front.len() implies (#[trigger] front[k]).1 > 0
                && core_holds(start, front[k].0) >= front[k].1 && front[k].0 != item by {
                assert(front[k] == missing@[k]);
                assert(missing@[k].0 != missing@[i as int].0);
            }
            assert forall|a: int, b: int| 0 <= a < b < front.len() implies (
            #[trigger] front[a]).0 != (#[trigger] front[b]).0 by {
                assert(front[a] == missing@[a] && front[b] == missing@[b]);
            }
            lemma_spent(start, front);
            assert(core_holds(start, missing@[i as int].0) >= missing@[i as int].1);
            assert(core_holds(core@, item) == core_holds(start, item));
        }
        if item >= 0 && (item as usize) < core.len() {
            let left: i32 = core[item as usize] - amount;
            core.set(item as usize, left);
        }
        i += 1;
    }
    assert(missing@.take(i as int) =~= missing@);
}

/// Delivers `amount` of an item to a core that holds at most `capacity` of it.
pub fn deposit_core_items(core: &mut Vec<i32>, item: i16, amount: i32, capacity: i32)
    requires
        amount >= 0,
    ensures
        final(core)@ == deposited(old(core)@, item, amount as int, capacity),
        final(core)@.len() == old(core)@.len(),
{
    if item >= 0 && (item as usize) < core.len() {
        let now: i32 = core[item as usize];
        let limit: i32 = if now > capacity { now } else { capacity };
        let sum: i64 = now as i64 + amount as i64;
        let next: i32 = if sum > limit as i64 { limit } else { sum as i32 };
        core.set(item as usize, next);
    }
}

/// One craft: the building's own items are used first, then the core of its team. A craft
/// that cannot be paid changes nothing.
pub fn craft_once(
    inventory: &mut Vec<(i16, i32)>,
    core: &mut Vec<i32>,
    recipe: &FactoryRecipe,
    to: Output,
) -> (done: bool)
    requires
        sound(old(inventory)@),
        recipe@.wf(),
        to is Own ==> held(old(inventory)@, recipe.output.0) + recipe.output.1 <= i32::MAX,
    ensures
        match crafted_once(old(inventory)@, old(core)@, recipe@, to) {
            None => !done && final(inventory)@ == old(inventory)@ && final(core)@ == old(core)@,
            Some((i, c)) => done && final(inventory)@ == i && final(core)@ == c,
        },
        sound(final(inventory)@),
        held(final(inventory)@, recipe.output.0) <= held(old(inventory)@, recipe.output.0)
            + recipe.output.1,
{
    let ghost before = inventory@;
    let (mut local, missing) = draw_inputs(inventory, &recipe.inputs);
    let out: i16 = recipe.output.0;
    proof {
        lemma_drawn_is_sound(before, recipe.inputs@);
        lemma_missing_is_distinct(before, recipe.inputs@);
        assert(0 <= held(drawn(before, recipe.inputs@).0, out) <= held(before, out));
    }
    if !core_affords(core, &missing) {
        return false;
    }
    spend_core(core, &missing);
    let ghost used = local@;
    match to {
        Output::Own => {
            inventory_add(&mut local, out, recipe.output.1);
            proof {
                law_added(used, out, recipe.output.1 as int, out);
            }
        },
        Output::Core(capacity) => deposit_core_items(core, out, recipe.output.1, capacity),
    }
    *inventory = local;
    true
}

/// Crafts until `cycles` crafts are done or one cannot be paid, and says how many were done.
pub fn craft_cycles(
    inventory: &mut Vec<(i16, i32)>,
    core: &mut Vec<i32>,
    recipe: &FactoryRecipe,
    to: Output,
    cycles: u32,
) -> (n: u32)
    requires
        sound(old(inventory)@),
        recipe@.wf(),
        to is Own ==> held(old(inventory)@, recipe.output.0) + recipe.output.1 * cycles
            <= i32::MAX,
    ensures
        ({
            let after = crafted(old(inventory)@, old(core)@, recipe@, to, cycles as nat);
            &&& final(inventory)@ == after.0
            &&& final(core)@ == after.1
            &&& n == after.2
        }),
        sound(final(inventory)@),
        n <= cycles,
{
    let ghost all = crafted(inventory@, core@, recipe@, to, cycles as nat);
    let ghost start = held(inventory@, recipe.output.0);
    let ghost per = recipe.output.1 as int;
    let mut n: u32 = 0;
    while n < cycles
        invariant
            recipe@.wf(),
            per == recipe.output.1,
            sound(inventory@),
            n <= cycles,
            all == crafted(old(inventory)@, old(core)@, recipe@, to, cycles as nat),
            to is Own ==> start + per * cycles <= i32::MAX,
            held(inventory@, recipe.output.0) <= start + per * n,
            ({
                let rest = crafted(inventory@, core@, recipe@, to, (cycles - n) as nat);
                all == (rest.0, rest.1, rest.2 + n as nat)
            }),
        decreases cycles - n,
    {
        proof {
            assert(per * n + per <= per * cycles) by (nonlinear_arith)
                requires
                    per > 0,
                    n < cycles,
            ;
            assert(per * (n + 1) == per * n + per) by (nonlinear_arith);
        }
        if !craft_once(inventory, core, recipe, to) {
            return n;
        }
        n += 1;
    }
    n
}

/// A craft that is not paid for leaves both stores alone; one that is takes exactly the
/// inputs, from the building first and the rest from the core.
pub proof fn law_craft_takes_the_inputs(
    inventory: Seq<(i16, i32)>,
    core: Seq<i32>,
    inputs: Seq<(i16, i32)>,
    item: i16,
)
    requires
        sound(inventory),
        forall|i: int| 0 <= i < inputs.len() ==> (#[trigger] inputs[i]).1 > 0,
        forall|i: int, j: int|
            0 <= i < j < inputs.len() ==> (#[trigger] inputs[i]).0 != (#[trigger] inputs[j]).0,
        affordable(core, drawn(inventory, inputs).1),
    ensures
        held(drawn(inventory, inputs).0, item) + core_holds(
            spent(core, drawn(inventory, inputs).1),
            item,
        ) == held(inventory, item) + core_holds(core, item) - wanted(inputs, item),
{
    let missing = drawn(inventory, inputs).1;
    lemma_drawn_is_sound(inventory, inputs);
    lemma_missing_is_distinct(inventory, inputs);
    lemma_spent(core, missing);
    lemma_drawn_splits(inventory, inputs, item);
    if exists|i: int| 0 <= i < missing.len() && (#[trigger] missing[i]).0 == item {
        let i = choose|i: int| 0 <= i < missing.len() && (#[trigger] missing[i]).0 == item;
        lemma_wanted_at(missing, i);
    } else {
        lemma_wanted_none(missing, item);
    }
}

/// How much of an item a list asks for.
pub open spec fn wanted(inputs: Seq<(i16, i32)>, item: i16) -> int
    decreases inputs.len(),
{
    if inputs.len() == 0 {
        0
    } else {
        wanted(inputs.drop_last(), item) + if inputs.last().0 == item {
            inputs.last().1 as int
        } else {
            0
        }
    }
}

pub proof fn lemma_wanted_none(list: Seq<(i16, i32)>, item: i16)
    requires
        forall|i: int| 0 <= i < list.len() ==> (#[trigger] list[i]).0 != item,
    ensures
        wanted(list, item) == 0,
    decreases list.len(),
{
    if list.len() > 0 {
        let front = list.drop_last();
        assert forall|i: int| 0 <= i < front.len() implies (#[trigger] front[i]).0 != item by {
            assert(front[i] == list[i]);
        }
        lemma_wanted_none(front, item);
        assert(list[list.len() - 1].0 != item);
    }
}

pub proof fn lemma_wanted_at(list: Seq<(i16, i32)>, at: int)
    requires
        0 <= at < list.len(),
        forall|i: int, j: int|
            0 <= i < j < list.len() ==> (#[trigger] list[i]).0 != (#[trigger] list[j]).0,
    ensures
        wanted(list, list[at].0) == list[at].1,
    decreases list.len(),
{
    let front = list.drop_last();
    let item = list[at].0;
    assert forall|i: int, j: int| 0 <= i < j < front.len() implies (#[trigger] front[i]).0 != (
    #[trigger] front[j]).0 by {
        assert(front[i] == list[i] && front[j] == list[j]);
    }
    if at == list.len() - 1 {
        assert forall|i: int| 0 <= i < front.len() implies (#[trigger] front[i]).0 != item by {
            assert(front[i] == list[i]);
        }
        lemma_wanted_none(front, item);
    } else {
        assert(front[at] == list[at]);
        lemma_wanted_at(front, at);
        assert(list[list.len() - 1].0 != item);
    }
}

/// What the building gives and what is missing make up what is asked for.
pub proof fn lemma_drawn_splits(inventory: Seq<(i16, i32)>, inputs: Seq<(i16, i32)>, item: i16)
    requires
        sound(inventory),
        forall|i: int| 0 <= i < inputs.len() ==> (#[trigger] inputs[i]).1 > 0,
    ensures
        held(inventory, item) - held(drawn(inventory, inputs).0, item) + wanted(
            drawn(inventory, inputs).1,
            item,
        ) == wanted(inputs, item),
    decreases inputs.len(),
{
    if inputs.len() > 0 {
        let front = inputs.drop_last();
        assert forall|i: int| 0 <= i < front.len() implies (#[trigger] front[i]).1 > 0 by {
            assert(front[i] == inputs[i]);
        }
        lemma_drawn_splits(inventory, front, item);
        lemma_drawn_is_sound(inventory, front);
        let (local, missing) = drawn(inventory, front);
        let (what, amount) = inputs.last();
        assert(inputs[inputs.len() - 1].1 > 0);
        let owned = if held(local, what) < amount { held(local, what) } else { amount as int };
        assert(0 <= held(local, what));
        if owned > 0 {
            law_removed(local, what, owned, item);
        }
        if owned < amount {
            let more = missing.push((what, (amount - owned) as i32));
            assert(more.drop_last() =~= missing);
        }
    }
}

} // verus!
