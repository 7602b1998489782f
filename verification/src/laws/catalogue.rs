//! What holds of the content data as a whole.

use crate::content::{
    asked_for, deselected, duct_ticks, fabricator_capacity, fabricator_is_listed, listed_speed,
    missile_lifetime, plan_is_listed, predicted_block, selected_plan, spec_enemy, spec_erekir_drill,
    spec_fabricator, spec_heat_block, spec_liquid_factory_recipe, spec_separator, speed_is_listed,
    synced_block, HeatKind,
};
use crate::float_bits::{at_most, below};
use vstd::prelude::*;

verus! {

/// The better belts are faster than the first, and a router is faster than any; all of them
/// need several ticks for an item.
pub proof fn law_belt_speeds(block: i16)
    requires
        speed_is_listed(block),
    ensures
        below(0, listed_speed(block)),
        below(listed_speed(block), 0x3F80_0000),
        block != 257 ==> below(listed_speed(257), listed_speed(block)),
        block != 266 ==> below(listed_speed(block), listed_speed(266)),
        listed_speed(266) == 0x3E00_0000,
{
}

/// The surge router takes half as long again as the other ducts, which take four ticks.
pub proof fn law_duct_times(block: i16)
    ensures
        block != 280 ==> duct_ticks(block) == 0x4080_0000,
        duct_ticks(280) == 0x40C0_0000,
{
}

/// A list asks for what its first entry for an item says, and for nothing that it does not
/// name.
pub proof fn law_first_entry_is_asked_for(list: Seq<(i16, i32)>, item: i16, i: int)
    ensures
        0 <= i < list.len() && list[i].0 == item && (forall|j: int|
            0 <= j < i ==> (#[trigger] list[j]).0 != item) ==> asked_for(list, item) == list[i].1,
        (forall|j: int| 0 <= j < list.len() ==> (#[trigger] list[j]).0 != item) ==> asked_for(
            list,
            item,
        ) == 0,
    decreases list.len(),
{
    if list.len() > 0 && list[0].0 != item {
        let rest = list.skip(1);
        law_first_entry_is_asked_for(rest, item, i - 1);
        if 0 < i < list.len() && (forall|j: int|
            0 <= j < i ==> (#[trigger] list[j]).0 != item) {
            assert(rest[i - 1] == list[i]);
            assert forall|j: int| 0 <= j < i - 1 implies (#[trigger] rest[j]).0 != item by {
                assert(rest[j] == list[j + 1]);
            }
        }
        if forall|j: int| 0 <= j < list.len() ==> (#[trigger] list[j]).0 != item {
            assert forall|j: int| 0 <= j < rest.len() implies (#[trigger] rest[j]).0 != item by {
                assert(rest[j] == list[j + 1]);
            }
        }
    }
}

/// A fabricator has room for two units' worth of everything that its plan asks for, and for
/// nothing else.
pub proof fn law_fabricator_holds_two_units_worth(block: i16, item: i16, i: int)
    requires
        fabricator_is_listed(block),
    ensures
        ({
            let list = spec_fabricator(block).unwrap().requirements;
            &&& 0 <= i < list.len() ==> fabricator_capacity(block, list[i].0) == 2 * list[i].1
            &&& (forall|j: int| 0 <= j < list.len() ==> (#[trigger] list[j]).0 != item)
                ==> fabricator_capacity(block, item) == 0
            &&& 0 <= i < list.len() ==> list[i].1 > 0
        }),
{
    let list = spec_fabricator(block).unwrap().requirements;
    if 0 <= i < list.len() {
        law_first_entry_is_asked_for(list, list[i].0, i);
    }
    law_first_entry_is_asked_for(list, item, 0);
}

/// A fabricator that was never configured builds its plan; a factory whose plan was taken
/// back builds nothing.
pub proof fn law_plans(block: i16)
    ensures
        selected_plan(block, Seq::empty()) == spec_fabricator(block),
        selected_plan(block, deselected()) is None,
        plan_is_listed(377, deselected()),
        fabricator_is_listed(block) ==> plan_is_listed(block, Seq::empty()),
{
}

/// Every recipe with liquids takes its time and makes either an item or a liquid, in an
/// amount; one that takes no liquid says so.
pub proof fn law_liquid_recipes(block: i16)
    ensures
        spec_liquid_factory_recipe(block) matches Some(r) ==> {
            &&& below(0, r.craft_time)
            &&& r.item_output is Some <==> r.liquid_output is None
            &&& r.liquid_input.0 == -1 <==> r.liquid_input.1 == 0
            &&& at_most(0, r.liquid_input.1)
            &&& (r.liquid_output matches Some((_, amount)) ==> below(0, amount))
        },
{
}

/// A separator takes its time and a liquid, and every one of its results has a share.
pub proof fn law_separators(block: i16, i: int)
    ensures
        spec_separator(block) matches Some(s) ==> {
            &&& below(0, s.craft_time)
            &&& below(0, s.liquid_input.1)
            &&& s.results.len() == 4
            &&& 0 <= i < s.results.len() ==> s.results[i].1 > 0
        },
{
}

/// What makes heat gives some and needs none; what uses heat needs some and gives none.
pub proof fn law_heat(block: i16)
    ensures
        spec_heat_block(block) matches Some(h) ==> {
            &&& h.kind == HeatKind::Producer ==> below(0, h.heat_output) && h.heat_requirement == 0
            &&& h.kind == HeatKind::Consumer ==> below(0, h.heat_requirement) && h.heat_output == 0
            &&& h.size > 0
        },
{
}

/// The larger beam drill is better in every respect.
pub proof fn law_beam_drills()
    ensures
        ({
            let a = spec_erekir_drill(335).unwrap();
            let b = spec_erekir_drill(336).unwrap();
            &&& a.tier < b.tier
            &&& below(b.drill_time, a.drill_time)
            &&& a.size < b.size
            &&& a.range < b.range
            &&& a.item_capacity < b.item_capacity
        }),
        spec_erekir_drill(337) is None,
{
}

/// Every unit of the table can take something, and no speed or damage in it is negative.
pub proof fn law_units_can_take_something(unit: i16)
    ensures
        spec_enemy(unit) matches Some(u) ==> {
            &&& below(0, u.health)
            &&& (u.speed matches Some(v) ==> at_most(0, v))
            &&& (u.attack_damage matches Some(d) ==> at_most(0, d))
        },
{
}

/// A missile lives for a while.
pub proof fn law_missiles_live_for_a_while(unit: i16)
    ensures
        missile_lifetime(unit) matches Some(t) ==> below(0, t),
{
}

/// Clients predict belts, routers and drills; fabricators and separators are synchronised.
pub proof fn law_what_clients_predict(block: i16)
    ensures
        257 <= block <= 258 || block == 260 || block == 266 || block == 267 || 325 <= block <= 328
            ==> predicted_block(block) && !synced_block(block),
        fabricator_is_listed(block) || spec_separator(block) is Some ==> synced_block(block)
            && !predicted_block(block),
{
}

} // verus!
