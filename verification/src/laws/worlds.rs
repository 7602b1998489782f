//! What a mode switch, a load and a start make of a world.

use crate::laws::workshop::lemma_filter_members;
use crate::registry::{law_last_entry_stands, law_other_keys_stay};
use crate::rpc::{tile_column, tile_row};
use crate::runtime::{
    all_reassigned, by_position, cancelled, entries, grouped, kept, moved_units, of_other_map,
    overlaid, pauses_in, playing_team, records_added, records_replaced, session_team, spawns_in,
    stale_units, start_mismatch, switched, unit_ids, units_added, units_of_team, units_replaced,
    with_rules, BuildingCommand, LoadedWorld, MapBuilding, ModeActionReconciliation, ModeWorld,
    PendingActions, PlayerCombat, Reassignment, Records, SavedRecords, Start, WaveRules,
};
use crate::startup::{
    health_after_load, last_saved, map_name_of, next_id, promoted, resumed, save_mismatch, standing,
    BuildingTemplate, GameNumbers, SaveMismatch, SavedNumbers, UnitAuthority,
};
use crate::float_bits::{at_most, below};
use crate::wire::{GameMode, SessionPlayer};
use vstd::prelude::*;

verus! {

// ---------------------------------------------------------------------------
// Switching the mode.

/// PvP and the sandbox lose every unit of the old wave team, and no other unit; the other
/// modes lose none. What is lost also leaves the order of groups, in which the others stay.
/// What is in flight goes exactly when a unit went.
pub proof fn law_switch_removes_the_old_wave_team(
    before: ModeWorld,
    after: ModeWorld,
    mode: GameMode,
    rules: WaveRules,
    spawns: Seq<(i16, i16)>,
    unit: i32,
)
    requires
        before.enemies.wf(),
        switched(before, after, mode, rules, spawns),
    ensures
        ({
            let clears = mode == GameMode::Pvp || mode == GameMode::Sandbox;
            let there = before.enemies@.dom().contains(unit);
            let goes = clears && there && before.enemies@[unit] == before.rules.wave_team;
            &&& after.enemies@.dom().contains(unit) <==> there && !goes
            &&& there && !goes ==> after.enemies@[unit] == before.enemies@[unit]
            &&& stale_units(before, mode).contains(unit) <==> goes
            &&& stale_units(before, mode).no_duplicates()
            &&& after.unit_group_order@.contains(unit) <==> before.unit_group_order@.contains(unit)
                && !goes
            &&& before.unit_group_order@.no_duplicates()
                ==> after.unit_group_order@.no_duplicates()
            &&& goes ==> after.projectiles@.len() == 0
            &&& stale_units(before, mode).len() == 0 ==> after.projectiles@
                == before.projectiles@ && after.enemies_count == before.enemies_count
        }),
{
    before.enemies.lemma_keys();
    let keys = before.enemies.spec_keys();
    let p = crate::runtime::is_of_team(before.enemies@, before.rules.wave_team);
    lemma_filter_members(keys, p);
    let stale = stale_units(before, mode);
    assert(keys.filter(p).contains(unit) <==> keys.contains(unit) && p(unit));
    let q = |id: i32| !stale.contains(id);
    lemma_filter_members(before.unit_group_order@, q);
    assert(kept(before.unit_group_order@, stale) == before.unit_group_order@.filter(q));
    assert(before.unit_group_order@.filter(q).contains(unit)
        <==> before.unit_group_order@.contains(unit) && q(unit));
}

/// A switched world has the new mode, its rules and its spawns; its first countdown and its
/// resources follow the rules. It is not over, has counted nothing and rebuilds nothing, and
/// its ways are worked out anew.
pub proof fn law_switched_world_follows_the_new_rules(
    before: ModeWorld,
    after: ModeWorld,
    mode: GameMode,
    rules: WaveRules,
    spawns: Seq<(i16, i16)>,
)
    requires
        switched(before, after, mode, rules, spawns),
    ensures
        after.mode == mode,
        after.rules == rules,
        after.infinite_resources == rules.infinite_resources,
        after.wave_time == rules.initial_wave_spacing,
        after.enemy_spawns@ == spawns,
        !after.game_over,
        after.ai_rebuild_sites@.len() == 0,
        after.stats.waves_lasted == 0,
        after.stats.enemy_units_destroyed == 0,
        after.stats.buildings_built == 0,
        after.stats.buildings_destroyed == 0,
        after.stats.units_created == 0,
        after.navigation_revision != before.navigation_revision,
        before.navigation_revision < u64::MAX ==> after.navigation_revision
            == before.navigation_revision + 1,
{
}

/// After a switch nothing is paused by hand, and only PvP is paused by itself; there is
/// something to save.
pub proof fn law_switched_world_runs(after: ModeWorld, mode: GameMode)
    requires
        pauses_in(after, mode),
    ensures
        !after.is_paused,
        after.pvp_auto_paused <==> mode == GameMode::Pvp,
        after.persistence_dirty,
{
}

/// The units of a team are listed exactly, each once.
pub proof fn law_units_of_a_team(enemies: Map<i32, u8>, keys: Seq<i32>, team: u8, unit: i32)
    requires
        keys.no_duplicates(),
        forall|k: i32| keys.contains(k) <==> enemies.dom().contains(k),
    ensures
        units_of_team(enemies, keys, team).contains(unit) <==> enemies.dom().contains(unit)
            && enemies[unit] == team,
        units_of_team(enemies, keys, team).no_duplicates(),
{
    let p = crate::runtime::is_of_team(enemies, team);
    lemma_filter_members(keys, p);
    assert(keys.filter(p).contains(unit) <==> keys.contains(unit) && p(unit));
}

/// Only in attack mode do the cores of the wave team spawn; elsewhere the spawns are those of
/// the map.
pub proof fn law_spawns_by_mode(
    base: Seq<(i16, i16)>,
    buildings: Seq<MapBuilding>,
    mode: GameMode,
    wave_team: u8,
    i: int,
)
    ensures
        mode != GameMode::Attack ==> spawns_in(base, buildings, mode, wave_team) == base,
        mode == GameMode::Attack && 0 <= i < buildings.len() && 339 <= buildings[i].block <= 344
            && buildings[i].team == wave_team ==> spawns_in(
            base,
            buildings,
            mode,
            wave_team,
        ).contains((tile_column(buildings[i].position), tile_row(buildings[i].position))),
        mode == GameMode::Attack && base.len() <= i < spawns_in(
            base,
            buildings,
            mode,
            wave_team,
        ).len() ==> exists|k: int|
            0 <= k < buildings.len() && 339 <= (#[trigger] buildings[k]).block <= 344
                && buildings[k].team == wave_team && spawns_in(
                base,
                buildings,
                mode,
                wave_team,
            )[i] == (tile_column(buildings[k].position), tile_row(buildings[k].position)),
{
    crate::runtime::law_attack_spawns(base, buildings, wave_team);
    let all = spawns_in(base, buildings, mode, wave_team);
    if mode == GameMode::Attack && base.len() <= i < all.len() {
        assert(crate::runtime::is_core_place(buildings, wave_team, all[i]));
        let k = choose|k: int| crate::runtime::core_at(buildings, wave_team, all[i], k);
        assert(339 <= buildings[k].block <= 344);
    }
}

// ---------------------------------------------------------------------------
// Players in a switch.

/// A player plays for the assigned team in PvP and for the first one elsewhere.
pub proof fn law_teams_by_mode(mode: GameMode, assigned: u8)
    ensures
        playing_team(GameMode::Pvp, assigned) == assigned,
        mode != GameMode::Pvp ==> playing_team(mode, assigned) == 1,
{
}

/// A session counts for the team of its unit, and for the first one where its unit is not in
/// the field.
pub proof fn law_session_counts_for_its_unit(
    session: SessionPlayer,
    players: Map<i32, PlayerCombat>,
)
    ensures
        session_team(session, players).unit_id == session.unit_id,
        session_team(session, players).uuid == session.uuid@,
        players.dom().contains(session.unit_id) ==> session_team(session, players).team
            == players[session.unit_id].team,
        !players.dom().contains(session.unit_id) ==> session_team(session, players).team == 1,
{
}

proof fn lemma_not_reassigned(
    players: Map<i32, PlayerCombat>,
    list: Seq<Reassignment>,
    unit: i32,
)
    requires
        forall|i: int| 0 <= i < list.len() ==> (#[trigger] list[i]).unit_id != unit,
    ensures
        all_reassigned(players, list)[unit] == players[unit],
        all_reassigned(players, list).dom().contains(unit) == players.dom().contains(unit),
        !moved_units(players, list).contains(unit),
    decreases list.len(),
{
    if list.len() > 0 {
        let front = list.drop_last();
        assert(list[list.len() - 1].unit_id != unit);
        assert forall|i: int| 0 <= i < front.len() implies (#[trigger] front[i]).unit_id
            != unit by {
            assert(front[i] == list[i]);
        }
        lemma_not_reassigned(players, front, unit);
        let moved = moved_units(players, front);
        let out = moved_units(players, list);
        if out.contains(unit) {
            let i = choose|i: int| 0 <= i < out.len() && out[i] == unit;
            if i < moved.len() {
                assert(moved[i] == unit);
            }
        }
    }
}

/// A unit with a new team goes there and plays for it, and is reported as moved; one whose
/// team stays neither moves nor is reported. Units without a place in the list stay.
pub proof fn law_new_team_new_place(
    players: Map<i32, PlayerCombat>,
    list: Seq<Reassignment>,
    i: int,
    other: i32,
)
    requires
        forall|a: int, b: int|
            0 <= a < b < list.len() ==> (#[trigger] list[a]).unit_id != (#[trigger] list[b]).unit_id,
    ensures
        all_reassigned(players, list).dom() == players.dom(),
        0 <= i < list.len() && players.dom().contains(list[i].unit_id) ==> {
            let to = list[i];
            let was = players[to.unit_id];
            let now = all_reassigned(players, list)[to.unit_id];
            &&& now.team == to.team
            &&& was.team != to.team ==> now.x == to.spawn_x && now.y == to.spawn_y
            &&& was.team == to.team ==> now == was
            &&& moved_units(players, list).contains(to.unit_id) <==> was.team != to.team
        },
        (forall|k: int| 0 <= k < list.len() ==> (#[trigger] list[k]).unit_id != other)
            ==> all_reassigned(players, list)[other] == players[other] && !moved_units(
            players,
            list,
        ).contains(other),
    decreases list.len(),
{
    if forall|k: int| 0 <= k < list.len() ==> (#[trigger] list[k]).unit_id != other {
        lemma_not_reassigned(players, list, other);
    }
    if list.len() > 0 {
        let front = list.drop_last();
        let last = list.last();
        assert forall|a: int, b: int| 0 <= a < b < front.len() implies (
        #[trigger] front[a]).unit_id != (#[trigger] front[b]).unit_id by {
            assert(front[a] == list[a] && front[b] == list[b]);
        }
        law_new_team_new_place(players, front, i, other);
        assert(all_reassigned(players, list).dom() =~= players.dom());
        let moved = moved_units(players, front);
        let out = moved_units(players, list);
        if 0 <= i < list.len() && players.dom().contains(list[i].unit_id) {
            let unit = list[i].unit_id;
            if i < front.len() {
                assert(front[i] == list[i]);
                assert(list[i].unit_id != list[list.len() - 1].unit_id);
                if moved.contains(unit) {
                    let k = choose|k: int| 0 <= k < moved.len() && moved[k] == unit;
                    assert(out[k] == unit);
                }
                if out.contains(unit) {
                    let k = choose|k: int| 0 <= k < out.len() && out[k] == unit;
                    if k < moved.len() {
                        assert(moved[k] == unit);
                    }
                }
            } else {
                assert forall|k: int| 0 <= k < front.len() implies (#[trigger] front[k]).unit_id
                    != unit by {
                    assert(front[k] == list[k]);
                    assert(list[k].unit_id != list[list.len() - 1].unit_id);
                }
                lemma_not_reassigned(players, front, unit);
                if players[unit].team != last.team {
                    assert(out[out.len() - 1] == unit);
                }
            }
        }
    }
}

// ---------------------------------------------------------------------------
// Cancelled work.

/// Everything under way is cancelled and counted: as many builds and breaks as there were,
/// and as many plans as the teams and the sessions had together.
pub proof fn law_all_work_is_cancelled(
    before: PendingActions,
    after: PendingActions,
    r: ModeActionReconciliation,
    i: int,
)
    requires
        cancelled(before, after, r),
    ensures
        r.builds == before.builds@.len(),
        r.breaks == before.breaks@.len(),
        r.plans == entries(before.team_plans@),
        r.active_plans == entries(before.session_plans@),
        after.builds@.len() == 0,
        after.breaks@.len() == 0,
        after.team_plans@.len() == 0,
        after.session_plans@.len() == before.session_plans@.len(),
        0 <= i < after.session_plans@.len() ==> after.session_plans@[i]@.len() == 0,
{
    if 0 <= i < after.session_plans@.len() {
        assert(after.session_plans@[i]@ == Seq::<i32>::empty());
    }
}

/// The entries of lists are counted list by list.
pub proof fn law_entries_add_up(lists: Seq<Vec<i32>>, list: Vec<i32>)
    ensures
        entries(Seq::empty()) == 0,
        entries(lists.push(list)) == entries(lists) + list@.len(),
{
    assert(lists.push(list).drop_last() =~= lists);
}

// ---------------------------------------------------------------------------
// Loading.

/// A group order holds the numbers that it had, in their places, and those that joined, each
/// once.
pub proof fn law_groups_take_everyone_once(order: Seq<i32>, ids: Seq<i32>, id: i32)
    ensures
        grouped(order, ids).contains(id) <==> order.contains(id) || ids.contains(id),
        order.no_duplicates() ==> grouped(order, ids).no_duplicates(),
        order.len() <= grouped(order, ids).len(),
        grouped(order, ids).take(order.len() as int) == order,
    decreases ids.len(),
{
    if ids.len() == 0 {
        assert(order.take(order.len() as int) =~= order);
    } else {
        let front = ids.drop_last();
        let last = ids.last();
        law_groups_take_everyone_once(order, front, id);
        law_groups_take_everyone_once(order, front, last);
        let before = grouped(order, front);
        let out = grouped(order, ids);
        assert(ids[ids.len() - 1] == last);
        assert(ids.contains(id) <==> front.contains(id) || id == last) by {
            if ids.contains(id) {
                let i = choose|i: int| 0 <= i < ids.len() && ids[i] == id;
                if i < front.len() {
                    assert(front[i] == id);
                }
            }
            if front.contains(id) {
                let i = choose|i: int| 0 <= i < front.len() && front[i] == id;
                assert(ids[i] == id);
            }
        }
        if !before.contains(last) {
            assert(out == before.push(last));
            assert(out[out.len() - 1] == last);
            assert(out.contains(id) <==> before.contains(id) || id == last) by {
                if out.contains(id) {
                    let i = choose|i: int| 0 <= i < out.len() && out[i] == id;
                    if i < before.len() {
                        assert(before[i] == id);
                    }
                }
                if before.contains(id) {
                    let i = choose|i: int| 0 <= i < before.len() && before[i] == id;
                    assert(out[i] == id);
                }
            }
            if order.no_duplicates() {
                assert forall|i: int, j: int| 0 <= i < out.len() && 0 <= j < out.len() && i
                    != j implies out[i] != out[j] by {
                    if i < before.len() && j < before.len() {
                        assert(before[i] != before[j]);
                    } else {
                        let k = if i < before.len() { i } else { j };
                        assert(before[k] != last);
                    }
                }
            }
        }
        assert(out.take(order.len() as int) =~= before.take(order.len() as int));
    }
}

/// After a load exactly the units of the save are there, each with the team of its last entry
/// and in the groups, the others are gone, and the ways are worked out anew. After a start
/// the units that were there stay beside them. Either way the game goes on as it was: its
/// mode, its rules and whether it is over do not change by its units.
pub proof fn law_loaded_units_are_there(
    before: ModeWorld,
    loaded: ModeWorld,
    started: ModeWorld,
    list: Seq<(i32, u8)>,
    at: int,
    other: i32,
)
    requires
        units_replaced(before, loaded, list),
        units_added(before, started, list),
    ensures
        0 <= at < list.len() && (forall|i: int|
            at < i < list.len() ==> (#[trigger] list[i]).0 != list[at].0) ==> {
            &&& loaded.enemies@.dom().contains(list[at].0)
            &&& loaded.enemies@[list[at].0] == list[at].1
            &&& started.enemies@.dom().contains(list[at].0)
            &&& started.enemies@[list[at].0] == list[at].1
            &&& loaded.unit_group_order@.contains(list[at].0)
            &&& started.unit_group_order@.contains(list[at].0)
        },
        (forall|i: int| 0 <= i < list.len() ==> (#[trigger] list[i]).0 != other) ==> {
            &&& !loaded.enemies@.dom().contains(other)
            &&& !loaded.unit_group_order@.contains(other)
            &&& started.enemies@.dom().contains(other) == before.enemies@.dom().contains(other)
            &&& before.enemies@.dom().contains(other) ==> started.enemies@[other]
                == before.enemies@[other]
            &&& started.unit_group_order@.contains(other) == before.unit_group_order@.contains(
                other,
            )
        },
        loaded.enemies_count == units_of_team(
            loaded.enemies@,
            loaded.enemies.spec_keys(),
            before.rules.wave_team,
        ).len(),
        loaded.navigation_revision != before.navigation_revision,
        started.navigation_revision == before.navigation_revision,
        loaded.game_over == before.game_over && started.game_over == before.game_over,
        loaded.mode == before.mode && started.mode == before.mode,
        loaded.rules == before.rules && started.rules == before.rules,
        loaded.stats == before.stats && started.stats == before.stats,
{
    let ids = unit_ids(list);
    if 0 <= at < list.len() && (forall|i: int|
        at < i < list.len() ==> (#[trigger] list[i]).0 != list[at].0) {
        law_last_entry_stands(Map::<i32, u8>::empty(), list, at);
        law_last_entry_stands(before.enemies@, list, at);
        assert(ids[at] == list[at].0);
        law_groups_take_everyone_once(Seq::empty(), ids, list[at].0);
        law_groups_take_everyone_once(before.unit_group_order@, ids, list[at].0);
    }
    if forall|i: int| 0 <= i < list.len() ==> (#[trigger] list[i]).0 != other {
        law_other_keys_stay(Map::<i32, u8>::empty(), list, other);
        law_other_keys_stay(before.enemies@, list, other);
        law_groups_take_everyone_once(Seq::empty(), ids, other);
        law_groups_take_everyone_once(before.unit_group_order@, ids, other);
        assert(!ids.contains(other)) by {
            if ids.contains(other) {
                let i = choose|i: int| 0 <= i < ids.len() && ids[i] == other;
                assert(list[i].0 == other);
            }
        }
    }
}

/// Commands are kept under the positions of their buildings.
pub proof fn law_commands_stand_under_their_positions(commands: Seq<BuildingCommand>, i: int)
    requires
        0 <= i < commands.len(),
    ensures
        by_position(commands).len() == commands.len(),
        by_position(commands)[i] == (commands[i].position, commands[i]),
{
}

/// A load leaves no command, order or steering of before that the save does not list; a
/// start keeps them. Flags of before stay either way, and nothing is under way.
pub proof fn law_records_of_before<O, F>(
    before: Records<O, F>,
    loaded: Records<O, F>,
    started: Records<O, F>,
    saved: SavedRecords<O, F>,
    key: i32,
    name: Seq<char>,
)
    requires
        records_replaced(before, loaded, saved),
        records_added(before, started, saved),
    ensures
        loaded.actions.builds@.len() == 0 && started.actions.builds@.len() == 0,
        loaded.actions.breaks@.len() == 0 && started.actions.breaks@.len() == 0,
        loaded.actions.team_plans@.len() == 0 && started.actions.team_plans@.len() == 0,
        loaded.actions.session_plans@.len() == 0 && started.actions.session_plans@.len() == 0,
        (forall|i: int|
            0 <= i < saved.building_commands@.len() ==> (
            #[trigger] saved.building_commands@[i]).position != key) ==> {
            &&& !loaded.building_commands@.dom().contains(key)
            &&& started.building_commands@.dom().contains(key)
                == before.building_commands@.dom().contains(key)
        },
        (forall|i: int|
            0 <= i < saved.unit_orders@.len() ==> (#[trigger] saved.unit_orders@[i]).0 != key)
            ==> {
            &&& !loaded.unit_orders@.dom().contains(key)
            &&& started.unit_orders@.dom().contains(key) == before.unit_orders@.dom().contains(
                key,
            )
        },
        (forall|i: int|
            0 <= i < saved.authorities@.len() ==> (#[trigger] saved.authorities@[i]).0 != key)
            ==> {
            &&& !loaded.authorities@.dom().contains(key)
            &&& started.authorities@.dom().contains(key) == before.authorities@.dom().contains(
                key,
            )
        },
        (forall|i: int|
            0 <= i < saved.logic_flags@.len() ==> (#[trigger] saved.logic_flags@[i]).0@ != name)
            ==> {
            &&& loaded.logic_flags@.dom().contains(name) == before.logic_flags@.dom().contains(
                name,
            )
            &&& started.logic_flags@.dom().contains(name) == before.logic_flags@.dom().contains(
                name,
            )
        },
{
    let commands = by_position(saved.building_commands@);
    if forall|i: int|
        0 <= i < saved.building_commands@.len() ==> (
        #[trigger] saved.building_commands@[i]).position != key {
        assert forall|i: int| 0 <= i < commands.len() implies (#[trigger] commands[i]).0
            != key by {
            assert(saved.building_commands@[i].position != key);
        }
        law_other_keys_stay(Map::<i32, BuildingCommand>::empty(), commands, key);
        law_other_keys_stay(before.building_commands@, commands, key);
    }
    if forall|i: int|
        0 <= i < saved.unit_orders@.len() ==> (#[trigger] saved.unit_orders@[i]).0 != key {
        law_other_keys_stay(Map::<i32, O>::empty(), saved.unit_orders@, key);
        law_other_keys_stay(before.unit_orders@, saved.unit_orders@, key);
    }
    if forall|i: int|
        0 <= i < saved.authorities@.len() ==> (#[trigger] saved.authorities@[i]).0 != key {
        law_other_keys_stay(Map::<i32, UnitAuthority>::empty(), saved.authorities@, key);
        law_other_keys_stay(before.authorities@, saved.authorities@, key);
    }
    let flags = crate::registry::by_name(saved.logic_flags@);
    if forall|i: int|
        0 <= i < saved.logic_flags@.len() ==> (#[trigger] saved.logic_flags@[i]).0@ != name {
        assert forall|i: int| 0 <= i < flags.len() implies (#[trigger] flags[i]).0 != name by {
            assert(saved.logic_flags@[i].0@ != name);
        }
        law_other_keys_stay(before.logic_flags@, flags, name);
    }
}

/// The records of a save are there after a load and after a start, of several entries of a
/// key the last.
pub proof fn law_records_of_the_save<O, F>(
    before: Records<O, F>,
    loaded: Records<O, F>,
    started: Records<O, F>,
    saved: SavedRecords<O, F>,
    at: int,
)
    requires
        records_replaced(before, loaded, saved),
        records_added(before, started, saved),
    ensures
        0 <= at < saved.building_commands@.len() && (forall|i: int|
            at < i < saved.building_commands@.len() ==> (
            #[trigger] saved.building_commands@[i]).position
                != saved.building_commands@[at].position) ==> {
            let c = saved.building_commands@[at];
            &&& loaded.building_commands@.dom().contains(c.position)
            &&& loaded.building_commands@[c.position] == c
            &&& started.building_commands@.dom().contains(c.position)
            &&& started.building_commands@[c.position] == c
        },
        0 <= at < saved.unit_orders@.len() && (forall|i: int|
            at < i < saved.unit_orders@.len() ==> (#[trigger] saved.unit_orders@[i]).0
                != saved.unit_orders@[at].0) ==> {
            let c = saved.unit_orders@[at];
            &&& loaded.unit_orders@.dom().contains(c.0) && loaded.unit_orders@[c.0] == c.1
            &&& started.unit_orders@.dom().contains(c.0) && started.unit_orders@[c.0] == c.1
        },
        0 <= at < saved.authorities@.len() && (forall|i: int|
            at < i < saved.authorities@.len() ==> (#[trigger] saved.authorities@[i]).0
                != saved.authorities@[at].0) ==> {
            let c = saved.authorities@[at];
            &&& loaded.authorities@.dom().contains(c.0) && loaded.authorities@[c.0] == c.1
            &&& started.authorities@.dom().contains(c.0) && started.authorities@[c.0] == c.1
        },
        0 <= at < saved.logic_flags@.len() && (forall|i: int|
            at < i < saved.logic_flags@.len() ==> (#[trigger] saved.logic_flags@[i]).0@
                != saved.logic_flags@[at].0@) ==> {
            let c = saved.logic_flags@[at];
            &&& loaded.logic_flags@.dom().contains(c.0@) && loaded.logic_flags@[c.0@] == c.1
            &&& started.logic_flags@.dom().contains(c.0@) && started.logic_flags@[c.0@] == c.1
        },
{
    let commands = by_position(saved.building_commands@);
    if 0 <= at < saved.building_commands@.len() && (forall|i: int|
        at < i < saved.building_commands@.len() ==> (
        #[trigger] saved.building_commands@[i]).position
            != saved.building_commands@[at].position) {
        assert forall|i: int| at < i < commands.len() implies (#[trigger] commands[i]).0
            != commands[at].0 by {
            assert(saved.building_commands@[i].position != saved.building_commands@[at].position);
        }
        law_last_entry_stands(Map::<i32, BuildingCommand>::empty(), commands, at);
        law_last_entry_stands(before.building_commands@, commands, at);
    }
    if 0 <= at < saved.unit_orders@.len() && (forall|i: int|
        at < i < saved.unit_orders@.len() ==> (#[trigger] saved.unit_orders@[i]).0
            != saved.unit_orders@[at].0) {
        law_last_entry_stands(Map::<i32, O>::empty(), saved.unit_orders@, at);
        law_last_entry_stands(before.unit_orders@, saved.unit_orders@, at);
    }
    if 0 <= at < saved.authorities@.len() && (forall|i: int|
        at < i < saved.authorities@.len() ==> (#[trigger] saved.authorities@[i]).0
            != saved.authorities@[at].0) {
        law_last_entry_stands(Map::<i32, UnitAuthority>::empty(), saved.authorities@, at);
        law_last_entry_stands(before.authorities@, saved.authorities@, at);
    }
    let flags = crate::registry::by_name(saved.logic_flags@);
    if 0 <= at < saved.logic_flags@.len() && (forall|i: int|
        at < i < saved.logic_flags@.len() ==> (#[trigger] saved.logic_flags@[i]).0@
            != saved.logic_flags@[at].0@) {
        assert forall|i: int| at < i < flags.len() implies (#[trigger] flags[i]).0
            != flags[at].0 by {
            assert(saved.logic_flags@[i].0@ != saved.logic_flags@[at].0@);
        }
        law_last_entry_stands(before.logic_flags@, flags, at);
    }
}

/// The rules of a slot hold where the slot has them, and those of the world where it has
/// none; nothing else of the world changes by them.
pub proof fn law_rules_of_a_slot(world: ModeWorld, rules: WaveRules)
    ensures
        with_rules(world, Some(rules)).rules == rules,
        with_rules(world, None) == world,
        with_rules(world, Some(rules)) == (ModeWorld {
            rules: with_rules(world, Some(rules)).rules,
            ..world
        }),
{
}

/// A slot that names another map than the one that is played is refused; one that names that
/// map or none is not.
pub proof fn law_slot_of_another_map<O, F>(loaded: LoadedWorld<O, F>, active: Seq<char>)
    ensures
        of_other_map(loaded, active) <==> loaded.map_name is Some && loaded.map_name.unwrap()@
            != active,
{
}

/// A start refuses a save of another map, and one that names no map where a map file was
/// chosen; every other start goes ahead.
pub proof fn law_start_refuses_foreign_saves(
    saved: Option<Seq<char>>,
    active: Seq<char>,
    map_file: bool,
    save_exists: bool,
)
    ensures
        save_mismatch(saved, active, map_file, save_exists) == Some(SaveMismatch::OtherMap)
            <==> saved is Some && saved.unwrap() != active,
        save_mismatch(saved, active, map_file, save_exists) == Some(SaveMismatch::NoIdentity)
            <==> saved is None && map_file && save_exists,
{
}

/// A start holds the save to the map that it hosts.
pub proof fn law_start_looks_at_its_map<O, F>(start: Start<'_>, loaded: LoadedWorld<O, F>)
    ensures
        loaded.map_name is Some ==> (start_mismatch(start, loaded) is None
            <==> loaded.map_name.unwrap()@ == start.active@),
        loaded.map_name is None ==> (start_mismatch(start, loaded) is None <==> !(start.map_file
            && start.save_exists)),
{
}

// ---------------------------------------------------------------------------
// Starting.

/// A map is hosted under its configured name; only the default name gives way to that of a
/// chosen map file, or to a stand-in where the file has none.
pub proof fn law_hosted_name(configured: Seq<char>, map_file: bool, stem: Seq<char>)
    ensures
        !map_file || configured != "maze"@ ==> map_name_of(configured, map_file, Some(stem))
            == configured && map_name_of(configured, map_file, None) == configured,
        map_name_of("maze"@, true, Some(stem)) == stem,
        map_name_of("maze"@, true, None) == "custom"@,
{
}

/// The next number is the smallest that is not below the start and above every number that
/// is taken; a number that has none above it stands for itself.
pub proof fn law_next_number_is_the_smallest(start: i32, ids: Seq<i32>)
    ensures
        start <= next_id(start, ids),
        next_id(start, ids) == start || exists|i: int|
            0 <= i < ids.len() && (next_id(start, ids) == (#[trigger] ids[i]) + 1 || (ids[i]
                == i32::MAX && next_id(start, ids) == i32::MAX)),
        forall|i: int|
            0 <= i < ids.len() ==> (#[trigger] ids[i]) < next_id(start, ids) || next_id(start, ids)
                == i32::MAX,
    decreases ids.len(),
{
    if ids.len() > 0 {
        let front = ids.drop_last();
        law_next_number_is_the_smallest(start, front);
        let before = next_id(start, front);
        let out = next_id(start, ids);
        assert forall|i: int| 0 <= i < ids.len() implies (#[trigger] ids[i]) < out || out
            == i32::MAX by {
            if i < front.len() {
                assert(front[i] == ids[i]);
            }
        }
        if out != start {
            if out == before {
                let i = choose|i: int|
                    0 <= i < front.len() && (before == (#[trigger] front[i]) + 1 || (front[i]
                        == i32::MAX && before == i32::MAX));
                assert(ids[i] == front[i]);
            } else {
                assert(ids[ids.len() - 1] == ids.last());
            }
        }
    }
}

/// A unit obeys its command exactly where one was active and nothing but its own mind steered
/// it; who is steered by a player or by logic stays so, and so does everyone else.
pub proof fn law_commanded_units_obey(
    units: Map<i32, UnitAuthority>,
    commanded: Seq<i32>,
    unit: i32,
)
    ensures
        ({
            let after = promoted(units, commanded);
            &&& after.dom() == units.dom()
            &&& units.dom().contains(unit) ==> after[unit] == if commanded.contains(unit)
                && units[unit] == UnitAuthority::DefaultAi {
                UnitAuthority::Command
            } else {
                units[unit]
            }
        }),
    decreases commanded.len(),
{
    if commanded.len() > 0 {
        let front = commanded.drop_last();
        law_commanded_units_obey(units, front, unit);
        law_commanded_units_obey(units, front, commanded.last());
        assert(promoted(units, commanded).dom() =~= units.dom());
        assert(commanded[commanded.len() - 1] == commanded.last());
        assert(commanded.contains(unit) <==> front.contains(unit) || unit == commanded.last()) by {
            if commanded.contains(unit) {
                let i = choose|i: int| 0 <= i < commanded.len() && commanded[i] == unit;
                if i < front.len() {
                    assert(front[i] == unit);
                }
            }
            if front.contains(unit) {
                let i = choose|i: int| 0 <= i < front.len() && front[i] == unit;
                assert(commanded[i] == unit);
            }
        }
    }
}

/// A saved health that is possible is taken up, at least a trace of it; without one the
/// building has the health of the map.
pub proof fn law_health_comes_from_the_save(saved: u32, template: u32, maximum: u32)
    requires
        at_most(0x0080_0000, maximum),
    ensures
        at_most(0x0080_0000, saved) && at_most(saved, maximum) ==> health_after_load(
            Some(saved),
            template,
            maximum,
        ) == saved,
        at_most(0, saved) && below(saved, 0x0080_0000) ==> health_after_load(
            Some(saved),
            template,
            maximum,
        ) == 0x0080_0000,
        !(at_most(0, saved) && at_most(saved, maximum)) ==> health_after_load(
            Some(saved),
            template,
            maximum,
        ) == health_after_load(None, template, maximum),
        at_most(0x0080_0000, template) && at_most(template, maximum) ==> health_after_load(
            None,
            template,
            maximum,
        ) == template,
        below(maximum, template) ==> health_after_load(None, template, maximum) == maximum,
{
}

/// The last entry of a position counts; without an entry there is none.
pub proof fn law_last_saved_counts(saved: Seq<(i32, u32)>, position: i32, at: int)
    ensures
        0 <= at < saved.len() && saved[at].0 == position && (forall|i: int|
            at < i < saved.len() ==> (#[trigger] saved[i]).0 != position) ==> last_saved(
            saved,
            position,
        ) == Some(saved[at].1),
        (forall|i: int| 0 <= i < saved.len() ==> (#[trigger] saved[i]).0 != position)
            ==> last_saved(saved, position) is None,
    decreases saved.len(),
{
    if saved.len() > 0 && saved.last().0 != position {
        let front = saved.drop_last();
        law_last_saved_counts(front, position, at);
        if 0 <= at < saved.len() && saved[at].0 == position && (forall|i: int|
            at < i < saved.len() ==> (#[trigger] saved[i]).0 != position) {
            assert(at < front.len());
            assert(front[at] == saved[at]);
            assert forall|i: int| at < i < front.len() implies (#[trigger] front[i]).0
                != position by {
                assert(front[i] == saved[i]);
            }
        }
        if forall|i: int| 0 <= i < saved.len() ==> (#[trigger] saved[i]).0 != position {
            assert forall|i: int| 0 <= i < front.len() implies (#[trigger] front[i]).0
                != position by {
                assert(front[i] == saved[i]);
            }
        }
    } else if saved.len() > 0 {
        assert(saved[saved.len() - 1].0 == position);
    }
}

/// A building of the map stands after a start unless the save has air in its place, and has
/// the health that the save says. Nothing stands that the map does not have.
pub proof fn law_buildings_stand_unless_destroyed(
    templates: Seq<BuildingTemplate>,
    blocks: Map<i32, i16>,
    saved: Seq<(i32, u32)>,
    i: int,
)
    ensures
        0 <= i < templates.len() && !(blocks.dom().contains(templates[i].position)
            && blocks[templates[i].position] == 0) ==> standing(templates, blocks, saved).contains(
            (
                templates[i].position,
                health_after_load(
                    last_saved(saved, templates[i].position),
                    templates[i].health,
                    templates[i].maximum,
                ),
            ),
        ),
        0 <= i < standing(templates, blocks, saved).len() ==> {
            let p = standing(templates, blocks, saved)[i].0;
            &&& !(blocks.dom().contains(p) && blocks[p] == 0)
            &&& exists|k: int| 0 <= k < templates.len() && (#[trigger] templates[k]).position == p
        },
        standing(templates, blocks, saved).len() <= templates.len(),
    decreases templates.len(),
{
    if templates.len() > 0 {
        let front = templates.drop_last();
        law_buildings_stand_unless_destroyed(front, blocks, saved, i);
        let before = standing(front, blocks, saved);
        let out = standing(templates, blocks, saved);
        assert(templates[templates.len() - 1] == templates.last());
        if 0 <= i < templates.len() && !(blocks.dom().contains(templates[i].position)
            && blocks[templates[i].position] == 0) {
            let entry = (
                templates[i].position,
                health_after_load(
                    last_saved(saved, templates[i].position),
                    templates[i].health,
                    templates[i].maximum,
                ),
            );
            if i < front.len() {
                assert(front[i] == templates[i]);
                assert(before.contains(entry));
                let k = choose|k: int| 0 <= k < before.len() && before[k] == entry;
                assert(out[k] == entry);
            } else {
                assert(out[out.len() - 1] == entry);
            }
        }
        if 0 <= i < out.len() {
            let p = out[i].0;
            if i < before.len() {
                assert(before[i] == out[i]);
                let k = choose|k: int| 0 <= k < front.len() && (#[trigger] front[k]).position == p;
                assert(templates[k] == front[k]);
            }
        }
    }
}

/// A number that was saved is taken up and one that was not stays; a core of which nothing
/// was saved is whole where a start says what that is.
pub proof fn law_numbers_come_from_the_save(
    now: GameNumbers,
    saved: SavedNumbers,
    full_health: Option<u32>,
)
    ensures
        ({
            let after = resumed(now, saved, full_health);
            &&& saved.simulation_time is Some ==> Some(after.simulation_time)
                == saved.simulation_time
            &&& saved.simulation_time is None ==> after.simulation_time == now.simulation_time
            &&& saved.wave is Some ==> Some(after.wave) == saved.wave
            &&& saved.wave is None ==> after.wave == now.wave
            &&& saved.wave_time is Some ==> Some(after.wave_time) == saved.wave_time
            &&& saved.wave_time is None ==> after.wave_time == now.wave_time
            &&& saved.core_items is Some ==> Some(after.core_items) == saved.core_items
            &&& saved.core_items is None ==> after.core_items == now.core_items
            &&& saved.core_health is Some ==> Some(after.core_health) == saved.core_health
            &&& saved.core_health is None && full_health is Some ==> Some(after.core_health)
                == full_health
            &&& saved.core_health is None && full_health is None ==> after.core_health
                == now.core_health
        }),
{
}

// ---------------------------------------------------------------------------
// Exporting.

/// The cell of a building: row by row, within the map.
pub open spec fn cell_of(position: i32, width: i32, height: i32) -> Option<int> {
    let x = tile_column(position) as int;
    let y = tile_row(position) as int;
    if 0 <= x < width && 0 <= y < height { Some(y * width + x) } else { None }
}

/// A cell of an exported map shows the last building on it, and what the map had where none
/// is.
pub proof fn law_exported_cell_shows_the_last_building(
    blocks: Seq<i16>,
    width: i32,
    height: i32,
    tiles: Seq<(i32, i16)>,
    cell: int,
    at: int,
)
    requires
        0 <= cell < blocks.len(),
    ensures
        overlaid(blocks, width, height, tiles).len() == blocks.len(),
        0 <= at < tiles.len() && cell_of(tiles[at].0, width, height) == Some(cell) && (forall|
            i: int,
        |
            at < i < tiles.len() ==> cell_of((#[trigger] tiles[i]).0, width, height) != Some(cell))
            ==> overlaid(blocks, width, height, tiles)[cell] == tiles[at].1,
        (forall|i: int|
            0 <= i < tiles.len() ==> cell_of((#[trigger] tiles[i]).0, width, height) != Some(cell))
            ==> overlaid(blocks, width, height, tiles)[cell] == blocks[cell],
    decreases tiles.len(),
{
    if tiles.len() > 0 {
        let front = tiles.drop_last();
        law_exported_cell_shows_the_last_building(blocks, width, height, front, cell, at);
        let last = tiles.last();
        let y = tile_row(last.0) as int;
        assert(tiles[tiles.len() - 1] == last);
        if cell_of(last.0, width, height) is Some {
            assert(0 <= y * width) by (nonlinear_arith)
                requires
                    0 <= y,
                    0 <= width,
            ;
        }
        if 0 <= at < tiles.len() - 1 && (forall|i: int|
            at < i < tiles.len() ==> cell_of((#[trigger] tiles[i]).0, width, height) != Some(
                cell,
            )) {
            assert(front[at] == tiles[at]);
            assert forall|i: int| at < i < front.len() implies cell_of(
                (#[trigger] front[i]).0,
                width,
                height,
            ) != Some(cell) by {
                assert(front[i] == tiles[i]);
            }
        }
        if forall|i: int|
            0 <= i < tiles.len() ==> cell_of((#[trigger] tiles[i]).0, width, height) != Some(
                cell,
            ) {
            assert forall|i: int| 0 <= i < front.len() implies cell_of(
                (#[trigger] front[i]).0,
                width,
                height,
            ) != Some(cell) by {
                assert(front[i] == tiles[i]);
            }
        }
    }
}

} // verus!
