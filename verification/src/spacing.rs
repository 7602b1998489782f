//! How far apart the items of a healed belt stand, in numbers.
//!
//! The sums come in from outside, so what is said here holds of sums that are right but for
//! rounding.

use crate::conveyor::{start_of, within_belt, BeltMath, CONVEYOR_ITEM_SPACE};
use crate::float_bits::{
    at_most, clamped, larger, law_measure_follows_the_order, lemma_measure_of_clamped,
    lemma_measure_of_larger, magnitude, measure, not_a_number, ONE, ZERO,
};
use vstd::arithmetic::power2::{lemma2_to64, lemma_pow2_adds, lemma_pow2_pos, pow2};
use vstd::prelude::*;

verus! {

/// How far a sum may be off: a part of the belt in about four million, which is more than
/// rounding to single precision makes of sums of up to four belts.
pub open spec fn rounding() -> int {
    measure(ONE) / 0x40_0000
}

/// Whether `a` is within `d` of `b`.
pub open spec fn close(a: int, b: int, d: int) -> bool {
    b - d <= a <= b + d
}

/// A 25-bit part of the belt, in which the item space is a whole number.
spec fn grain() -> int {
    pow2(124) as int
}

proof fn lemma_scale()
    ensures
        grain() > 0,
        measure(ZERO) == 0,
        measure(ONE) == 33_554_432 * grain(),
        measure(CONVEYOR_ITEM_SPACE) == 13_421_773 * grain(),
        rounding() == 8 * grain(),
{
    lemma2_to64();
    lemma_pow2_pos(124);
    lemma_pow2_adds(2, 124);
    assert(pow2(126) == 4 * pow2(124));
    let g = grain();
    assert(ONE as nat / 0x80_0000 - 1 == 126 && ONE as nat % 0x80_0000 == 0);
    assert(magnitude(ONE as nat) == 0x80_0000 * pow2(126));
    assert(33_554_432 * g / 0x40_0000 == 8 * g) by (nonlinear_arith);
}

impl<A: Fn(u32) -> u32, B: Fn(u32, u32) -> u32, G: Fn(u32) -> u32> BeltMath<A, B, G> {
    /// Whether the sums with the item space are right but for rounding, from the start of the
    /// belt to twice its length.
    pub open spec fn accurate(&self) -> bool {
        forall|x: u32|
            #![trigger self.spec_ahead(x)]
            #![trigger self.spec_back(x, 1)]
            at_most(ZERO, x) && measure(x) <= 2 * measure(ONE) ==> {
                let space = measure(CONVEYOR_ITEM_SPACE);
                let behind = measure(x) - space;
                &&& close(measure(self.spec_ahead(x)), measure(x) + space, rounding())
                &&& close(
                    measure(self.spec_back(x, 1)),
                    if behind > 0 { behind } else { 0 },
                    rounding(),
                )
            }
    }

    /// Where an item stands that comes behind another one.
    pub open spec fn placed(&self, x: u32, front: u32) -> u32 {
        clamped(x, ZERO, larger(self.spec_back(front, 1), ZERO))
    }

    proof fn lemma_healed_pair(&self, items: Seq<(i16, u32)>)
        requires
            items.len() == 2,
        ensures
            ({
                let s = within_belt(items);
                let out = self.healed(items);
                let front = clamped(larger(s[0].1, self.spec_ahead(s[1].1)), ZERO, ONE);
                &&& out.len() == 2
                &&& out[0].1 == front
                &&& out[1].1 == self.placed(s[1].1, front)
            }),
    {
        reveal_with_fuel(BeltMath::raised, 3);
        reveal_with_fuel(BeltMath::settled, 3);
    }

    proof fn lemma_healed_three(&self, items: Seq<(i16, u32)>)
        requires
            items.len() >= 3,
        ensures
            ({
                let s = within_belt(items);
                let out = self.healed(items);
                let middle = larger(s[1].1, self.spec_ahead(s[2].1));
                let front = clamped(larger(s[0].1, self.spec_ahead(middle)), ZERO, ONE);
                &&& out.len() == 3
                &&& out[0].1 == front
                &&& out[1].1 == self.placed(middle, front)
                &&& out[2].1 == self.placed(s[2].1, self.placed(middle, front))
            }),
    {
        reveal_with_fuel(BeltMath::raised, 4);
        reveal_with_fuel(BeltMath::settled, 4);
    }

    /// What comes of an item behind another one, in numbers.
    proof fn lemma_placed(&self, x: u32, front: u32)
        requires
            self.sane(),
            self.accurate(),
            !not_a_number(x),
            measure(x) >= 0,
            at_most(ZERO, front),
            at_most(front, ONE),
        ensures
            at_most(ZERO, self.placed(x, front)),
            at_most(self.placed(x, front), ONE),
            measure(self.placed(x, front)) <= measure(x),
            ({
                let behind = measure(front) - measure(CONVEYOR_ITEM_SPACE);
                let place = measure(self.placed(x, front));
                &&& place <= (if behind > 0 { behind } else { 0 }) + rounding()
                &&& place == measure(x) || place >= behind - rounding()
            }),
    {
        lemma_scale();
        law_measure_follows_the_order(front, ONE);
        law_measure_follows_the_order(ZERO, front);
        let back = self.spec_back(front, 1);
        lemma_measure_of_larger(back, ZERO);
        let limit = larger(back, ZERO);
        assert(at_most(ZERO, limit));
        lemma_measure_of_clamped(x, ZERO, limit);
        assert(at_most(back, front));
        assert(at_most(limit, ONE));
    }

    /// Where the item ahead of another one stands after room was made for it, in numbers.
    proof fn lemma_moved_ahead(&self, x: u32, behind: u32)
        requires
            self.sane(),
            self.accurate(),
            !not_a_number(x),
            measure(x) >= 0,
            at_most(ZERO, behind),
            measure(behind) <= 2 * measure(ONE),
        ensures
            !not_a_number(larger(x, self.spec_ahead(behind))),
            ({
                let place = measure(larger(x, self.spec_ahead(behind)));
                let space = measure(CONVEYOR_ITEM_SPACE);
                &&& place >= measure(x)
                &&& place >= measure(behind) + space - rounding()
                &&& place == measure(x) || place <= measure(behind) + space + rounding()
            }),
    {
        lemma_scale();
        lemma_measure_of_larger(x, self.spec_ahead(behind));
    }

    proof fn lemma_within_belt(&self, items: Seq<(i16, u32)>, k: int)
        requires
            0 <= k < within_belt(items).len(),
        ensures
            at_most(ZERO, within_belt(items)[k].1),
            at_most(within_belt(items)[k].1, ONE),
            0 <= measure(within_belt(items)[k].1) <= measure(ONE),
    {
        lemma_scale();
        let x = start_of(items[k].1);
        assert(at_most(ZERO, x) && at_most(x, ONE));
        law_measure_follows_the_order(ZERO, x);
        law_measure_follows_the_order(x, ONE);
    }

    /// The items of a healed queue keep their distance: each stands an item space behind the
    /// one ahead of it, but for rounding, which is 0.39999 of the belt at least.
    pub proof fn law_healed_items_keep_their_distance(&self, items: Seq<(i16, u32)>)
        requires
            self.sane(),
            self.accurate(),
        ensures
            forall|k: int|
                0 < k < self.healed(items).len() ==> {
                    let distance = measure(self.healed(items)[k - 1].1) - measure(
                        (#[trigger] self.healed(items)[k]).1,
                    );
                    &&& distance >= measure(CONVEYOR_ITEM_SPACE) - 4 * rounding()
                    &&& 100_000 * distance >= 39_999 * measure(ONE)
                },
    {
        lemma_scale();
        let s = within_belt(items);
        let out = self.healed(items);
        if items.len() == 2 {
            self.lemma_within_belt(items, 0);
            self.lemma_within_belt(items, 1);
            self.lemma_healed_pair(items);
            self.lemma_moved_ahead(s[0].1, s[1].1);
            let front = larger(s[0].1, self.spec_ahead(s[1].1));
            lemma_measure_of_clamped(front, ZERO, ONE);
            self.lemma_placed(s[1].1, clamped(front, ZERO, ONE));
        } else if items.len() >= 3 {
            self.lemma_within_belt(items, 0);
            self.lemma_within_belt(items, 1);
            self.lemma_within_belt(items, 2);
            self.lemma_healed_three(items);
            let middle = larger(s[1].1, self.spec_ahead(s[2].1));
            self.lemma_moved_ahead(s[1].1, s[2].1);
            self.lemma_not_below_zero(middle);
            self.lemma_moved_ahead(s[0].1, middle);
            let front = larger(s[0].1, self.spec_ahead(middle));
            lemma_measure_of_clamped(front, ZERO, ONE);
            let h0 = clamped(front, ZERO, ONE);
            self.lemma_placed(middle, h0);
            let h1 = self.placed(middle, h0);
            law_measure_follows_the_order(ZERO, h1);
            self.lemma_placed(s[2].1, h1);
        }
    }

    proof fn lemma_not_below_zero(&self, x: u32)
        requires
            !not_a_number(x),
            measure(x) > 0,
        ensures
            at_most(ZERO, x),
    {
        if x >= 0x8000_0000 {
            law_measure_follows_the_order(x, ZERO);
            lemma_scale();
        }
    }

    /// A queue whose items are on the belt and keep their distance but for a slack is hardly
    /// changed: no item moves by more than twice the slack and twice the rounding.
    pub proof fn law_spaced_queue_hardly_moves(&self, items: Seq<(i16, u32)>, slack: int)
        requires
            self.sane(),
            self.accurate(),
            items.len() <= 3,
            0 <= slack,
            forall|k: int|
                0 <= k < items.len() ==> at_most(ZERO, (#[trigger] items[k]).1) && at_most(
                    items[k].1,
                    ONE,
                ),
            forall|k: int|
                0 < k < items.len() ==> measure(items[k - 1].1) - measure(
                    (#[trigger] items[k]).1,
                ) >= measure(CONVEYOR_ITEM_SPACE) - slack,
        ensures
            self.healed(items).len() == items.len(),
            forall|k: int|
                0 <= k < items.len() ==> close(
                    measure((#[trigger] self.healed(items)[k]).1),
                    measure(items[k].1),
                    2 * slack + 2 * rounding(),
                ),
    {
        lemma_scale();
        let s = within_belt(items);
        let out = self.healed(items);
        assert forall|k: int| 0 <= k < items.len() implies s[k] == items[k] by {
            assert(at_most(ZERO, items[k].1) && at_most(items[k].1, ONE));
        }
        if items.len() == 2 {
            self.lemma_within_belt(items, 0);
            self.lemma_within_belt(items, 1);
            self.lemma_healed_pair(items);
            assert(measure(items[0].1) - measure(items[1].1) >= measure(CONVEYOR_ITEM_SPACE)
                - slack);
            self.lemma_moved_ahead(s[0].1, s[1].1);
            let front = larger(s[0].1, self.spec_ahead(s[1].1));
            lemma_measure_of_clamped(front, ZERO, ONE);
            self.lemma_placed(s[1].1, clamped(front, ZERO, ONE));
        } else if items.len() == 3 {
            self.lemma_within_belt(items, 0);
            self.lemma_within_belt(items, 1);
            self.lemma_within_belt(items, 2);
            self.lemma_healed_three(items);
            assert(measure(items[0].1) - measure(items[1].1) >= measure(CONVEYOR_ITEM_SPACE)
                - slack);
            assert(measure(items[1].1) - measure(items[2].1) >= measure(CONVEYOR_ITEM_SPACE)
                - slack);
            let middle = larger(s[1].1, self.spec_ahead(s[2].1));
            self.lemma_moved_ahead(s[1].1, s[2].1);
            self.lemma_not_below_zero(middle);
            self.lemma_moved_ahead(s[0].1, middle);
            let front = larger(s[0].1, self.spec_ahead(middle));
            lemma_measure_of_clamped(front, ZERO, ONE);
            let h0 = clamped(front, ZERO, ONE);
            self.lemma_placed(middle, h0);
            let h1 = self.placed(middle, h0);
            law_measure_follows_the_order(ZERO, h1);
            self.lemma_placed(s[2].1, h1);
        }
    }

    /// Healing twice is healing once, but for rounding: no item moves by more than ten times
    /// the rounding, which is less than 0.00002 of the belt.
    pub proof fn law_healed_queue_hardly_moves(&self, items: Seq<(i16, u32)>)
        requires
            self.sane(),
            self.accurate(),
        ensures
            self.healed(self.healed(items)).len() == self.healed(items).len(),
            forall|k: int|
                0 <= k < self.healed(items).len() ==> close(
                    measure((#[trigger] self.healed(self.healed(items))[k]).1),
                    measure(self.healed(items)[k].1),
                    10 * rounding(),
                ),
            100_000 * (10 * rounding()) <= 2 * measure(ONE),
    {
        lemma_scale();
        self.law_healed_queue_is_on_the_belt(items);
        self.law_healing_keeps_order(items);
        self.law_healed_items_keep_their_distance(items);
        self.law_spaced_queue_hardly_moves(self.healed(items), 4 * rounding());
    }
}

} // verus!
