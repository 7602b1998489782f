//! Console commands against the running world: save slots, mode switches, kicks and teams.

use crate::codec::slice_to_vec;
use crate::commands::{effects_of, Effect, EffectView};
use crate::conveyor::{
    load_buildings, overlay_buildings, tile_views, DynamicTile, DynamicWorld, TileView, WorldView,
};
use crate::outbound::{ip_of, PendingConnection};
use crate::protocol::{KICK_PACKET_ID, SEND_MESSAGE_PACKET_ID};
use crate::registry::{by_name, law_other_keys_stay, stocked, NamedRegistry, Registry};
use crate::rpc::{tile_column, tile_row, unpack_tile};
use crate::startup::{
    check_save_identity, law_next_id_is_new, next_enemy_id, next_id, or_keep, promote_commanded,
    promoted, resume_numbers, resumed, save_mismatch, GameNumbers, SaveMismatch, SavedNumbers,
    UnitAuthority,
};
use crate::text::{
    ascii_lower_text, eq_ignore_ascii_case, lowercase_of, text_eq, to_lowercase,
};
use crate::wire::{encode_text_frame, text_frame, GameMode, SessionPlayer};
use vstd::prelude::*;
use vstd::string::*;
use vstd::utf8::encode_utf8;

verus! {

// ---------------------------------------------------------------------------
// Save slots.

/// The name of a save file in two parts, where it has them.
pub struct SavePath {
    pub stem: Option<String>,
    pub extension: Option<String>,
}

/// A slot name that is not accepted.
#[derive(Clone, Copy, Debug, PartialEq, Eq, Structural)]
pub struct InvalidSlot;

pub open spec fn slot_char(c: char) -> bool {
    ||| '0' <= c && c <= '9'
    ||| 'a' <= c && c <= 'z'
    ||| 'A' <= c && c <= 'Z'
    ||| c == '-'
    ||| c == '_'
}

/// The slot names that are accepted: one to 64 bytes, of letters, digits, `-` and `_`.
pub open spec fn valid_slot(slot: Seq<char>) -> bool {
    &&& slot.len() > 0
    &&& encode_utf8(slot).len() <= 64
    &&& forall|i: int| 0 <= i < slot.len() ==> slot_char(#[trigger] slot[i])
}

pub open spec fn stem_of(base: SavePath) -> Seq<char> {
    match base.stem {
        Some(s) => s@,
        None => "world-delta"@,
    }
}

pub open spec fn extension_of(base: SavePath) -> Seq<char> {
    match base.extension {
        Some(s) => s@,
        None => "json"@,
    }
}

/// The file name of a slot: the stem, the slot and the extension.
pub open spec fn slot_name(stem: Seq<char>, slot: Seq<char>, extension: Seq<char>) -> Seq<char> {
    stem + "-"@ + slot + "."@ + extension
}

fn is_valid_slot(slot: &str) -> (r: bool)
    ensures
        r == valid_slot(slot@),
{
    let n: usize = slot.unicode_len();
    if n == 0 || slot.as_bytes().len() > 64 {
        return false;
    }
    let mut i: usize = 0;
    while i < n
        invariant
            n == slot@.len(),
            i <= n,
            forall|j: int| 0 <= j < i ==> slot_char(#[trigger] slot@[j]),
        decreases n - i,
    {
        let c: char = slot.get_char(i);
        let fine: bool = ('0' <= c && c <= '9') || ('a' <= c && c <= 'z') || ('A' <= c && c <= 'Z')
            || c == '-' || c == '_';
        if !fine {
            assert(!slot_char(slot@[i as int]));
            return false;
        }
        i += 1;
    }
    true
}

fn name_slot(base: &SavePath, slot: &str, extension: &str) -> (r: String)
    ensures
        r@ == slot_name(stem_of(*base), slot@, extension@),
{
    let mut name = match &base.stem {
        Some(stem) => stem.clone(),
        None => "world-delta".to_owned(),
    };
    name.append("-");
    name.append(slot);
    name.append(".");
    name.append(extension);
    name
}

/// The name of the file of a slot, which stands beside the save file.
pub fn save_slot_path(base: &SavePath, slot: &str) -> (r: Result<String, InvalidSlot>)
    ensures
        if valid_slot(slot@) {
            r matches Ok(name) && name@ == slot_name(stem_of(*base), slot@, extension_of(*base))
        } else {
            r == Err::<String, InvalidSlot>(InvalidSlot)
        },
{
    if !is_valid_slot(slot) {
        return Err(InvalidSlot);
    }
    let extension = match &base.extension {
        Some(extension) => extension.clone(),
        None => "json".to_owned(),
    };
    Ok(name_slot(base, slot, extension.as_str()))
}

/// The name of the file of an exported slot, which stands beside the save file.
pub fn export_slot_path(base: &SavePath, slot: &str) -> (r: Result<String, InvalidSlot>)
    ensures
        if valid_slot(slot@) {
            r matches Ok(name) && name@ == slot_name(stem_of(*base), slot@, "msav"@)
        } else {
            r == Err::<String, InvalidSlot>(InvalidSlot)
        },
{
    if !is_valid_slot(slot) {
        return Err(InvalidSlot);
    }
    Ok(name_slot(base, slot, "msav"))
}

/// Different slots have different files.
pub proof fn law_slots_do_not_collide(
    stem: Seq<char>,
    extension: Seq<char>,
    a: Seq<char>,
    b: Seq<char>,
)
    requires
        slot_name(stem, a, extension) == slot_name(stem, b, extension),
    ensures
        a == b,
{
    let x = slot_name(stem, a, extension);
    let y = slot_name(stem, b, extension);
    let n = (stem + "-"@).len() as int;
    assert(x.len() == y.len());
    assert(x.subrange(n, n + a.len()) =~= a);
    assert(y.subrange(n, n + b.len()) =~= b);
}

/// A slot cannot lead out of its directory: no accepted name holds a separator or a dot.
pub proof fn law_slot_stays_in_its_directory(slot: Seq<char>, i: int)
    requires
        valid_slot(slot),
        0 <= i < slot.len(),
    ensures
        slot[i] != '/',
        slot[i] != '\\',
        slot[i] != '.',
        slot[i] != ':',
{
    assert(slot_char(slot[i]));
}

// ---------------------------------------------------------------------------
// Modes.

pub open spec fn mode_text(mode: GameMode) -> Seq<char> {
    match mode {
        GameMode::Survival => "survival"@,
        GameMode::Sandbox => "sandbox"@,
        GameMode::Attack => "attack"@,
        GameMode::Pvp => "pvp"@,
    }
}

/// The mode that a text names exactly.
pub open spec fn mode_of(text: Seq<char>) -> Option<GameMode> {
    if text == "survival"@ {
        Some(GameMode::Survival)
    } else if text == "sandbox"@ {
        Some(GameMode::Sandbox)
    } else if text == "pvp"@ {
        Some(GameMode::Pvp)
    } else if text == "attack"@ {
        Some(GameMode::Attack)
    } else {
        None
    }
}

/// The mode that a text names exactly.
pub fn parse_mode(text: &str) -> (r: Option<GameMode>)
    ensures
        r == mode_of(text@),
{
    if text_eq(text, "survival") {
        Some(GameMode::Survival)
    } else if text_eq(text, "sandbox") {
        Some(GameMode::Sandbox)
    } else if text_eq(text, "pvp") {
        Some(GameMode::Pvp)
    } else if text_eq(text, "attack") {
        Some(GameMode::Attack)
    } else {
        None
    }
}

/// The name of a mode.
pub fn mode_name(mode: GameMode) -> (r: String)
    ensures
        r@ == mode_text(mode),
{
    match mode {
        GameMode::Survival => "survival".to_owned(),
        GameMode::Sandbox => "sandbox".to_owned(),
        GameMode::Attack => "attack".to_owned(),
        GameMode::Pvp => "pvp".to_owned(),
    }
}

/// Every mode is found under its name.
pub proof fn law_mode_names(mode: GameMode)
    ensures
        mode_of(mode_text(mode)) == Some(mode),
{
    reveal_strlit("survival");
    reveal_strlit("sandbox");
    reveal_strlit("pvp");
    reveal_strlit("attack");
    let s = "survival"@;
    let b = "sandbox"@;
    let p = "pvp"@;
    let a = "attack"@;
    assert(s.len() == 8 && b.len() == 7 && p.len() == 3 && a.len() == 6);
}

/// Work that a mode switch cancels. Builds and breaks are positions; plans are kept by
/// team, active plans by session.
pub struct PendingActions {
    pub builds: Vec<i32>,
    pub breaks: Vec<i32>,
    pub team_plans: Vec<Vec<i32>>,
    pub session_plans: Vec<Vec<i32>>,
}

/// How much was cancelled.
#[derive(Clone, Copy, Debug, PartialEq, Eq, Structural)]
pub struct ModeActionReconciliation {
    pub builds: usize,
    pub breaks: usize,
    pub plans: usize,
    pub active_plans: usize,
}

/// How many entries the lists have in all.
pub open spec fn entries(lists: Seq<Vec<i32>>) -> nat
    decreases lists.len(),
{
    if lists.len() == 0 { 0 } else { entries(lists.drop_last()) + lists.last()@.len() }
}

proof fn lemma_entries_grow(lists: Seq<Vec<i32>>, i: int)
    requires
        0 <= i <= lists.len(),
    ensures
        entries(lists.take(i)) <= entries(lists),
    decreases lists.len(),
{
    if i < lists.len() {
        assert(lists.drop_last().take(i) =~= lists.take(i));
        lemma_entries_grow(lists.drop_last(), i);
    } else {
        assert(lists.take(i) =~= lists);
    }
}

fn count_entries(lists: &Vec<Vec<i32>>) -> (n: usize)
    requires
        entries(lists@) <= usize::MAX,
    ensures
        n == entries(lists@),
{
    let mut n: usize = 0;
    let mut i: usize = 0;
    assert(lists@.take(0) =~= Seq::empty());
    while i < lists.len()
        invariant
            i <= lists@.len(),
            entries(lists@) <= usize::MAX,
            n == entries(lists@.take(i as int)),
        decreases lists@.len() - i,
    {
        assert(lists@.take(i + 1).drop_last() =~= lists@.take(i as int));
        proof {
            lemma_entries_grow(lists@, i + 1);
        }
        n += lists[i].len();
        i += 1;
    }
    assert(lists@.take(i as int) =~= lists@);
    n
}

/// Whether all work was cancelled and `r` says how much there was. The sessions stay, with
/// nothing in hand.
pub open spec fn cancelled(
    before: PendingActions,
    after: PendingActions,
    r: ModeActionReconciliation,
) -> bool {
    &&& r.builds == before.builds@.len()
    &&& r.breaks == before.breaks@.len()
    &&& r.plans == entries(before.team_plans@)
    &&& r.active_plans == entries(before.session_plans@)
    &&& after.builds@ == Seq::<i32>::empty()
    &&& after.breaks@ == Seq::<i32>::empty()
    &&& after.team_plans@ == Seq::<Vec<i32>>::empty()
    &&& after.session_plans@.len() == before.session_plans@.len()
    &&& forall|i: int|
        0 <= i < after.session_plans@.len() ==> (#[trigger] after.session_plans@[i])@
            == Seq::<i32>::empty()
}

proof fn lemma_no_entries(lists: Seq<Vec<i32>>)
    requires
        forall|i: int| 0 <= i < lists.len() ==> (#[trigger] lists[i])@ == Seq::<i32>::empty(),
    ensures
        entries(lists) == 0,
    decreases lists.len(),
{
    if lists.len() > 0 {
        assert forall|i: int| 0 <= i < lists.drop_last().len() implies (
        #[trigger] lists.drop_last()[i])@ == Seq::<i32>::empty() by {
            assert(lists.drop_last()[i] == lists[i]);
        }
        lemma_no_entries(lists.drop_last());
        assert(lists[lists.len() - 1]@ == Seq::<i32>::empty());
    }
}

/// After all work was cancelled there is nothing left to cancel: a second time counts
/// nothing, and the same sessions are still there.
pub proof fn law_cancelled_work_is_gone(
    before: PendingActions,
    between: PendingActions,
    after: PendingActions,
    first: ModeActionReconciliation,
    second: ModeActionReconciliation,
)
    requires
        cancelled(before, between, first),
        cancelled(between, after, second),
    ensures
        second == (ModeActionReconciliation { builds: 0, breaks: 0, plans: 0, active_plans: 0 }),
        after.session_plans@.len() == before.session_plans@.len(),
{
    lemma_no_entries(between.session_plans@);
}

/// Cancels the work of all teams and sessions, and says how much there was. Nothing is
/// paid or refunded.
pub fn reconcile_mode_transition_actions(actions: &mut PendingActions) -> (r:
    ModeActionReconciliation)
    requires
        entries(old(actions).team_plans@) <= usize::MAX,
        entries(old(actions).session_plans@) <= usize::MAX,
    ensures
        cancelled(*old(actions), *final(actions), r),
{
    let r = ModeActionReconciliation {
        builds: actions.builds.len(),
        breaks: actions.breaks.len(),
        plans: count_entries(&actions.team_plans),
        active_plans: count_entries(&actions.session_plans),
    };
    actions.builds.clear();
    actions.breaks.clear();
    actions.team_plans.clear();
    let n: usize = actions.session_plans.len();
    let mut cleared: Vec<Vec<i32>> = Vec::new();
    let mut i: usize = 0;
    while i < n
        invariant
            i <= n,
            cleared@.len() == i,
            forall|j: int|
                0 <= j < cleared@.len() ==> (#[trigger] cleared@[j])@ == Seq::<i32>::empty(),
        decreases n - i,
    {
        cleared.push(Vec::new());
        i += 1;
    }
    actions.session_plans = cleared;
    r
}

// ---------------------------------------------------------------------------
// Spawns.

/// A building of the map, as far as spawns depend on it.
pub struct MapBuilding {
    pub position: i32,
    pub block: i16,
    pub team: u8,
}

/// Whether a block is a core.
pub open spec fn core_block(block: i16) -> bool {
    339 <= block <= 344
}

/// The spawns with those of the cores of a team, each once.
pub open spec fn with_core_spawns(
    spawns: Seq<(i16, i16)>,
    buildings: Seq<MapBuilding>,
    team: u8,
) -> Seq<(i16, i16)>
    decreases buildings.len(),
{
    if buildings.len() == 0 {
        spawns
    } else {
        let before = with_core_spawns(spawns, buildings.drop_last(), team);
        let b = buildings.last();
        let place = (tile_column(b.position), tile_row(b.position));
        if core_block(b.block) && b.team == team && !before.contains(place) {
            before.push(place)
        } else {
            before
        }
    }
}

fn has_place(spawns: &Vec<(i16, i16)>, x: i16, y: i16) -> (r: bool)
    ensures
        r == spawns@.contains((x, y)),
{
    let mut i: usize = 0;
    while i < spawns.len()
        invariant
            i <= spawns@.len(),
            forall|j: int| 0 <= j < i ==> spawns@[j] != (x, y),
        decreases spawns@.len() - i,
    {
        if spawns[i].0 == x && spawns[i].1 == y {
            assert(spawns@[i as int] == (x, y));
            return true;
        }
        i += 1;
    }
    false
}

fn extend_attack_spawns_for_team(
    spawns: Vec<(i16, i16)>,
    buildings: &Vec<MapBuilding>,
    team: u8,
) -> (r: Vec<(i16, i16)>)
    ensures
        r@ == with_core_spawns(spawns@, buildings@, team),
{
    let mut r = spawns;
    let ghost start = r@;
    let mut i: usize = 0;
    assert(buildings@.take(0) =~= Seq::empty());
    while i < buildings.len()
        invariant
            i <= buildings@.len(),
            r@ == with_core_spawns(start, buildings@.take(i as int), team),
        decreases buildings@.len() - i,
    {
        assert(buildings@.take(i + 1).drop_last() =~= buildings@.take(i as int));
        let b = &buildings[i];
        if b.block >= 339 && b.block <= 344 && b.team == team {
            let (x, y) = unpack_tile(b.position);
            if !has_place(&r, x, y) {
                r.push((x, y));
            }
        }
        i += 1;
    }
    assert(buildings@.take(i as int) =~= buildings@);
    r
}

/// The spawns of a mode: those of the map, and in attack mode the cores of the wave team
/// too. Deriving them anew on every switch neither leaks attack spawns into other modes nor
/// loses them on the way in.
pub open spec fn spawns_in(
    base: Seq<(i16, i16)>,
    buildings: Seq<MapBuilding>,
    mode: GameMode,
    wave_team: u8,
) -> Seq<(i16, i16)> {
    if mode == GameMode::Attack { with_core_spawns(base, buildings, wave_team) } else { base }
}

/// The spawns of a mode.
pub fn mode_enemy_spawns(
    base_spawns: Vec<(i16, i16)>,
    buildings: &Vec<MapBuilding>,
    mode: GameMode,
    wave_team: u8,
) -> (r: Vec<(i16, i16)>)
    ensures
        r@ == spawns_in(base_spawns@, buildings@, mode, wave_team),
{
    match mode {
        GameMode::Attack => extend_attack_spawns_for_team(base_spawns, buildings, wave_team),
        _ => base_spawns,
    }
}

/// Whether building `k` is a core of the team and stands at this place.
pub open spec fn core_at(
    buildings: Seq<MapBuilding>,
    team: u8,
    place: (i16, i16),
    k: int,
) -> bool {
    &&& 0 <= k < buildings.len()
    &&& core_block(buildings[k].block)
    &&& buildings[k].team == team
    &&& place == (tile_column(buildings[k].position), tile_row(buildings[k].position))
}

/// Whether a core of the team stands at this place.
pub open spec fn is_core_place(
    buildings: Seq<MapBuilding>,
    team: u8,
    place: (i16, i16),
) -> bool {
    exists|k: int| core_at(buildings, team, place, k)
}

/// Attack mode keeps the spawns of the map in front and adds the cores of the wave team, all
/// of them and nothing else, each once and none where the map has a spawn already.
pub proof fn law_attack_spawns(
    base: Seq<(i16, i16)>,
    buildings: Seq<MapBuilding>,
    wave_team: u8,
)
    ensures
        ({
            let all = with_core_spawns(base, buildings, wave_team);
            &&& base.len() <= all.len()
            &&& all.take(base.len() as int) == base
            &&& forall|i: int, j: int|
                0 <= i < j < all.len() && base.len() <= j ==> #[trigger] all[i] != #[trigger] all[j]
            &&& base.no_duplicates() ==> all.no_duplicates()
            &&& forall|i: int|
                base.len() <= i < all.len() ==> #[trigger] is_core_place(
                    buildings,
                    wave_team,
                    all[i],
                )
            &&& forall|i: int|
                0 <= i < buildings.len() && core_block((#[trigger] buildings[i]).block)
                    && buildings[i].team == wave_team ==> all.contains(
                    (tile_column(buildings[i].position), tile_row(buildings[i].position)),
                )
        }),
    decreases buildings.len(),
{
    let all = with_core_spawns(base, buildings, wave_team);
    if buildings.len() == 0 {
        assert(all.take(base.len() as int) =~= base);
    } else {
        let front = buildings.drop_last();
        let before = with_core_spawns(base, front, wave_team);
        law_attack_spawns(base, front, wave_team);
        assert(all.take(base.len() as int) =~= before.take(base.len() as int));
        assert forall|i: int| base.len() <= i < all.len() implies #[trigger] is_core_place(
            buildings,
            wave_team,
            all[i],
        ) by {
            if i < before.len() {
                assert(all[i] == before[i]);
                assert(is_core_place(front, wave_team, before[i]));
                let k = choose|k: int| core_at(front, wave_team, before[i], k);
                assert(core_at(buildings, wave_team, all[i], k));
            } else {
                assert(core_at(buildings, wave_team, all[i], buildings.len() - 1));
            }
        }
        assert forall|i: int, j: int| 0 <= i < j < all.len() && base.len() <= j implies #[trigger] all[i]
            != #[trigger] all[j] by {
            assert(all[i] == before[i]);
            if j < before.len() {
                assert(all[j] == before[j]);
            }
        }
        assert forall|i: int|
            0 <= i < buildings.len() && core_block((#[trigger] buildings[i]).block)
                && buildings[i].team == wave_team implies all.contains(
            (tile_column(buildings[i].position), tile_row(buildings[i].position)),
        ) by {
            let place = (tile_column(buildings[i].position), tile_row(buildings[i].position));
            if i < front.len() {
                assert(front[i] == buildings[i]);
                assert(before.contains(place));
            }
            if before.contains(place) {
                let j = choose|j: int| 0 <= j < before.len() && before[j] == place;
                assert(all[j] == place);
            } else {
                assert(all[before.len() as int] == place);
            }
        }
    }
}

// ---------------------------------------------------------------------------
// Switching the mode.

/// The rules of the waves. The spacing is the bits of a single-precision number.
#[derive(Clone, Copy, Debug, PartialEq, Eq, Structural)]
pub struct WaveRules {
    pub wave_team: u8,
    pub waves_enabled: bool,
    pub wave_timer: bool,
    pub infinite_resources: bool,
    pub initial_wave_spacing: u32,
}

/// What a game counts for its final screen.
#[derive(Clone, Copy, Debug, PartialEq, Eq, Structural)]
pub struct GameStats {
    pub waves_lasted: i32,
    pub enemy_units_destroyed: i32,
    pub buildings_built: i32,
    pub buildings_destroyed: i32,
    pub units_created: i32,
}

/// A game that has counted nothing.
pub open spec fn no_stats() -> GameStats {
    GameStats {
        waves_lasted: 0,
        enemy_units_destroyed: 0,
        buildings_built: 0,
        buildings_destroyed: 0,
        units_created: 0,
    }
}

/// The part of a world that a mode switch changes. Units are known by their number and
/// their team.
pub struct ModeWorld {
    pub mode: GameMode,
    pub rules: WaveRules,
    pub infinite_resources: bool,
    pub wave_time: u32,
    pub enemy_spawns: Vec<(i16, i16)>,
    pub enemies: Registry<u8>,
    /// The order in which units were grouped.
    pub unit_group_order: Vec<i32>,
    pub projectiles: Vec<i32>,
    pub enemies_count: usize,
    pub ai_rebuild_sites: Vec<i32>,
    pub navigation_revision: u64,
    pub game_over: bool,
    pub stats: GameStats,
    pub is_paused: bool,
    pub pvp_auto_paused: bool,
    pub persistence_dirty: bool,
}

/// The units of a team, in the order of the registry.
pub open spec fn units_of_team(enemies: Map<i32, u8>, keys: Seq<i32>, team: u8) -> Seq<i32> {
    keys.filter(is_of_team(enemies, team))
}

/// Whether a unit belongs to a team.
pub open spec fn is_of_team(enemies: Map<i32, u8>, team: u8) -> spec_fn(i32) -> bool {
    |id: i32| enemies[id] == team
}

/// The units that are not of a team.
pub open spec fn without_team(enemies: Map<i32, u8>, team: u8) -> Map<i32, u8> {
    Map::new(
        |id: i32| enemies.dom().contains(id) && enemies[id] != team,
        |id: i32| enemies[id],
    )
}

/// How many units belong to the wave team.
pub fn hostile_unit_count(world: &ModeWorld) -> (n: usize)
    requires
        world.enemies.wf(),
    ensures
        n == units_of_team(
            world.enemies@,
            world.enemies.spec_keys(),
            world.rules.wave_team,
        ).len(),
{
    team_units(&world.enemies, world.rules.wave_team).len()
}

fn team_units(enemies: &Registry<u8>, team: u8) -> (r: Vec<i32>)
    requires
        enemies.wf(),
    ensures
        r@ == units_of_team(enemies@, enemies.spec_keys(), team),
        forall|id: i32| r@.contains(id) <==> enemies@.dom().contains(id) && enemies@[id] == team,
        r@.no_duplicates(),
{
    let keys = enemies.keys();
    let ghost of_team = is_of_team(enemies@, team);
    let mut r: Vec<i32> = Vec::new();
    let mut i: usize = 0;
    proof {
        reveal(Seq::filter);
        assert(keys@.take(0).filter(of_team) =~= Seq::empty());
    }
    while i < keys.len()
        invariant
            enemies.wf(),
            i <= keys@.len(),
            of_team == is_of_team(enemies@, team),
            forall|key: i32| keys@.contains(key) <==> enemies@.dom().contains(key),
            keys@.no_duplicates(),
            r@ == keys@.take(i as int).filter(of_team),
            forall|id: i32|
                r@.contains(id) <==> keys@.take(i as int).contains(id) && enemies@[id] == team,
            r@.no_duplicates(),
        decreases keys@.len() - i,
    {
        let ghost grown = keys@.take(i + 1);
        let ghost so_far = r@;
        let ghost id = keys@[i as int];
        proof {
            reveal(Seq::filter);
            assert(grown.drop_last() =~= keys@.take(i as int));
            assert(keys@.contains(id));
            assert(!keys@.take(i as int).contains(id)) by {
                if keys@.take(i as int).contains(id) {
                    let j = choose|j: int| 0 <= j < i && keys@.take(i as int)[j] == id;
                    assert(keys@[j] == keys@[i as int]);
                }
            }
            assert forall|k: i32| grown.contains(k) <==> keys@.take(i as int).contains(k) || k
                == id by {
                if grown.contains(k) {
                    let j = choose|j: int| 0 <= j < grown.len() && grown[j] == k;
                    if j < i {
                        assert(keys@.take(i as int)[j] == k);
                    }
                }
                if keys@.take(i as int).contains(k) {
                    let j = choose|j: int| 0 <= j < i && keys@.take(i as int)[j] == k;
                    assert(grown[j] == k);
                }
                assert(grown[i as int] == id);
            }
        }
        match enemies.get(keys[i]) {
            Some(t) => {
                if *t == team {
                    r.push(keys[i]);
                    assert forall|k: i32| r@.contains(k) <==> so_far.contains(k) || k == id by {
                        if so_far.contains(k) {
                            let j = choose|j: int| 0 <= j < so_far.len() && so_far[j] == k;
                            assert(r@[j] == k);
                        }
                        assert(r@[so_far.len() as int] == id);
                    }
                }
            },
            None => {},
        }
        i += 1;
    }
    assert(keys@.take(i as int) =~= keys@);
    r
}

/// The numbers that are not in a list, in their order.
pub open spec fn kept(order: Seq<i32>, gone: Seq<i32>) -> Seq<i32> {
    order.filter(|id: i32| !gone.contains(id))
}

fn contains_id(v: &Vec<i32>, x: i32) -> (r: bool)
    ensures
        r == v@.contains(x),
{
    let mut i: usize = 0;
    while i < v.len()
        invariant
            i <= v@.len(),
            forall|j: int| 0 <= j < i ==> v@[j] != x,
        decreases v@.len() - i,
    {
        if v[i] == x {
            assert(v@[i as int] == x);
            return true;
        }
        i += 1;
    }
    false
}

fn keep_others(order: &Vec<i32>, gone: &Vec<i32>) -> (r: Vec<i32>)
    ensures
        r@ == kept(order@, gone@),
{
    let ghost stays = |id: i32| !gone@.contains(id);
    let mut r: Vec<i32> = Vec::new();
    let mut i: usize = 0;
    proof {
        reveal(Seq::filter);
        assert(order@.take(0).filter(stays) =~= Seq::empty());
    }
    while i < order.len()
        invariant
            i <= order@.len(),
            stays == (|id: i32| !gone@.contains(id)),
            r@ == order@.take(i as int).filter(stays),
        decreases order@.len() - i,
    {
        proof {
            reveal(Seq::filter);
            assert(order@.take(i + 1).drop_last() =~= order@.take(i as int));
        }
        if !contains_id(gone, order[i]) {
            r.push(order[i]);
        }
        i += 1;
    }
    assert(order@.take(i as int) =~= order@);
    r
}

fn remove_units(enemies: &mut Registry<u8>, gone: &Vec<i32>)
    requires
        old(enemies).wf(),
    ensures
        final(enemies).wf(),
        final(enemies)@ == old(enemies)@.remove_keys(gone@.to_set()),
{
    let ghost start = enemies@;
    let mut i: usize = 0;
    assert(gone@.take(0).to_set() =~= Set::empty());
    assert(enemies@ =~= start.remove_keys(gone@.take(0).to_set()));
    while i < gone.len()
        invariant
            enemies.wf(),
            start == old(enemies)@,
            i <= gone@.len(),
            enemies@ == start.remove_keys(gone@.take(i as int).to_set()),
        decreases gone@.len() - i,
    {
        let ghost before = enemies@;
        enemies.remove(gone[i]);
        proof {
            let a = gone@.take(i as int);
            let b = gone@.take(i + 1);
            assert forall|k: i32| b.to_set().contains(k) <==> a.to_set().contains(k) || k
                == gone@[i as int] by {
                if b.contains(k) {
                    let j = choose|j: int| 0 <= j < b.len() && b[j] == k;
                    if j < i {
                        assert(a[j] == k);
                    }
                }
                if a.contains(k) {
                    let j = choose|j: int| 0 <= j < a.len() && a[j] == k;
                    assert(b[j] == k);
                }
                assert(b[i as int] == gone@[i as int]);
            }
            assert(enemies@ =~= start.remove_keys(b.to_set()));
        }
        i += 1;
    }
    assert(gone@.take(i as int) =~= gone@);
}

/// Whether a mode runs no enemies: units of the old wave team would stand there for ever.
pub open spec fn without_waves(mode: GameMode) -> bool {
    mode == GameMode::Pvp || mode == GameMode::Sandbox
}

/// The units that a switch removes.
pub open spec fn stale_units(world: ModeWorld, mode: GameMode) -> Seq<i32> {
    if without_waves(mode) {
        units_of_team(world.enemies@, world.enemies.spec_keys(), world.rules.wave_team)
    } else {
        Seq::empty()
    }
}

pub open spec fn next_revision(n: u64) -> u64 {
    if n == u64::MAX { 0 } else { (n + 1) as u64 }
}

/// What a mode switch makes of a world.
pub open spec fn switched(
    before: ModeWorld,
    after: ModeWorld,
    mode: GameMode,
    rules: WaveRules,
    spawns: Seq<(i16, i16)>,
) -> bool {
    let stale = stale_units(before, mode);
    &&& after.mode == mode
    &&& after.rules == rules
    &&& after.infinite_resources == rules.infinite_resources
    &&& after.wave_time == rules.initial_wave_spacing
    &&& after.enemy_spawns@ == spawns
    &&& after.enemies.wf()
    &&& after.enemies@ == if without_waves(mode) {
        without_team(before.enemies@, before.rules.wave_team)
    } else {
        before.enemies@
    }
    &&& after.unit_group_order@ == if without_waves(mode) {
        kept(before.unit_group_order@, stale)
    } else {
        before.unit_group_order@
    }
    &&& after.projectiles@ == if stale.len() > 0 { Seq::empty() } else { before.projectiles@ }
    &&& after.enemies_count == if stale.len() > 0 {
        units_of_team(after.enemies@, after.enemies.spec_keys(), rules.wave_team).len()
    } else {
        before.enemies_count as nat
    }
    &&& after.ai_rebuild_sites@ == Seq::<i32>::empty()
    &&& after.navigation_revision == next_revision(before.navigation_revision)
    &&& !after.game_over
    &&& after.stats == no_stats()
}

/// Commits the world's half of a mode switch and returns how many units of the old wave
/// team went.
///
/// The first countdown of the new game uses the new rules. Modes without waves lose the
/// units of the old wave team, and with them what is still in flight; units of other teams
/// stay. The game starts afresh: a finished game before the switch is forgotten, and so are
/// the rebuild sites of its AI. Construction under way is left alone.
pub fn apply_mode_switch_world_state(
    world: &mut ModeWorld,
    game_mode: GameMode,
    next_rules: WaveRules,
    next_enemy_spawns: Vec<(i16, i16)>,
) -> (removed: usize)
    requires
        old(world).enemies.wf(),
    ensures
        switched(*old(world), *final(world), game_mode, next_rules, next_enemy_spawns@),
        removed == stale_units(*old(world), game_mode).len(),
        final(world).is_paused == old(world).is_paused,
        final(world).pvp_auto_paused == old(world).pvp_auto_paused,
        final(world).persistence_dirty == old(world).persistence_dirty,
{
    let ghost before = *world;
    let previous_wave_team: u8 = world.rules.wave_team;
    world.mode = game_mode;
    world.rules = next_rules;
    world.infinite_resources = next_rules.infinite_resources;
    world.wave_time = next_rules.initial_wave_spacing;
    world.enemy_spawns = next_enemy_spawns;
    let mut removed: usize = 0;
    let clears: bool = match game_mode {
        GameMode::Pvp | GameMode::Sandbox => true,
        _ => false,
    };
    if clears {
        let stale = team_units(&world.enemies, previous_wave_team);
        assert(stale@ == stale_units(before, game_mode));
        removed = stale.len();
        remove_units(&mut world.enemies, &stale);
        assert(world.enemies@ =~= without_team(before.enemies@, previous_wave_team)) by {
            assert forall|id: i32| stale@.to_set().contains(id) <==> before.enemies@.dom().contains(
                id,
            ) && before.enemies@[id] == previous_wave_team by {
                assert(stale@.to_set().contains(id) == stale@.contains(id));
            }
        }
        world.unit_group_order = keep_others(&world.unit_group_order, &stale);
        if removed > 0 {
            world.projectiles.clear();
            world.enemies_count = hostile_unit_count(world);
        }
    }
    world.ai_rebuild_sites.clear();
    world.navigation_revision =
    if world.navigation_revision == u64::MAX { 0 } else { world.navigation_revision + 1 };
    world.game_over = false;
    world.stats =
    GameStats {
        waves_lasted: 0,
        enemy_units_destroyed: 0,
        buildings_built: 0,
        buildings_destroyed: 0,
        units_created: 0,
    };
    removed
}

/// Whatever the mode, a switched world is not over, and a mode without waves holds no unit
/// of the old wave team while every other unit is still there.
pub proof fn law_switch_starts_afresh(
    before: ModeWorld,
    after: ModeWorld,
    mode: GameMode,
    rules: WaveRules,
    spawns: Seq<(i16, i16)>,
    unit: i32,
)
    requires
        switched(before, after, mode, rules, spawns),
    ensures
        !after.game_over,
        after.enemy_spawns@ == spawns,
        without_waves(mode) && after.enemies@.dom().contains(unit) ==> after.enemies@[unit]
            != before.rules.wave_team,
        before.enemies@.dom().contains(unit) && before.enemies@[unit] != before.rules.wave_team
            ==> after.enemies@.dom().contains(unit) && after.enemies@[unit]
            == before.enemies@[unit],
        !without_waves(mode) ==> after.enemies@ == before.enemies@,
{
}

// ---------------------------------------------------------------------------
// Players in a switch.

/// A player's unit in the field. Coordinates are bits of single-precision numbers.
#[derive(Clone, Copy, Debug, PartialEq, Eq, Structural)]
pub struct PlayerCombat {
    pub team: u8,
    pub x: u32,
    pub y: u32,
}

/// Where a player goes in a switch.
#[derive(Clone, Copy, Debug, PartialEq, Eq, Structural)]
pub struct Reassignment {
    pub unit_id: i32,
    pub team: u8,
    pub spawn_x: u32,
    pub spawn_y: u32,
}

/// The team of a player in a mode; see [`team_in_mode`].
pub open spec fn playing_team(mode: GameMode, assigned: u8) -> u8 {
    if mode == GameMode::Pvp { assigned } else { 1 }
}

/// The team of a player in a mode: the assigned one in PvP, the first team elsewhere.
pub fn team_in_mode(mode: GameMode, assigned: u8) -> (r: u8)
    ensures
        r == playing_team(mode, assigned),
{
    match mode {
        GameMode::Pvp => assigned,
        _ => 1,
    }
}

/// A session as a switch sees it: its unit, who plays it, and the team of the unit.
pub struct SessionTeam {
    pub unit_id: i32,
    pub uuid: String,
    pub team: u8,
}

/// The contents of a [`SessionTeam`].
pub struct SessionTeamView {
    pub unit_id: i32,
    pub uuid: Seq<char>,
    pub team: u8,
}

impl View for SessionTeam {
    type V = SessionTeamView;

    open spec fn view(&self) -> SessionTeamView {
        SessionTeamView { unit_id: self.unit_id, uuid: self.uuid@, team: self.team }
    }
}

/// A session as a switch sees it. A session without a unit in the field counts as one of the
/// first team.
pub open spec fn session_team(
    session: SessionPlayer,
    players: Map<i32, PlayerCombat>,
) -> SessionTeamView {
    SessionTeamView {
        unit_id: session.unit_id,
        uuid: session.uuid@,
        team: if players.dom().contains(session.unit_id) {
            players[session.unit_id].team
        } else {
            1
        },
    }
}

/// The sessions as a switch sees them, in the order of the registry.
pub fn session_teams(sessions: &Registry<SessionPlayer>, players: &Registry<PlayerCombat>) -> (r:
    Vec<SessionTeam>)
    requires
        sessions.wf(),
        players.wf(),
    ensures
        r@.len() == sessions.spec_keys().len(),
        forall|i: int|
            0 <= i < r@.len() ==> (#[trigger] r@[i])@ == session_team(
                sessions@[sessions.spec_keys()[i]],
                players@,
            ),
{
    let keys = sessions.keys();
    let mut r: Vec<SessionTeam> = Vec::new();
    let mut i: usize = 0;
    while i < keys.len()
        invariant
            sessions.wf(),
            players.wf(),
            i <= keys@.len(),
            keys@ == sessions.spec_keys(),
            forall|key: i32| keys@.contains(key) <==> sessions@.dom().contains(key),
            r@.len() == i,
            forall|j: int|
                0 <= j < r@.len() ==> (#[trigger] r@[j])@ == session_team(
                    sessions@[keys@[j]],
                    players@,
                ),
        decreases keys@.len() - i,
    {
        assert(keys@.contains(keys@[i as int]));
        match sessions.get(keys[i]) {
            Some(session) => {
                let team: u8 = match players.get(session.unit_id) {
                    Some(combat) => combat.team,
                    None => 1,
                };
                r.push(
                    SessionTeam { unit_id: session.unit_id, uuid: session.uuid.clone(), team },
                );
            },
            None => {
                assert(false);
                return r;
            },
        }
        i += 1;
    }
    r
}

/// The team that a session gets in a switch: in PvP the one that it was given, elsewhere the
/// first.
pub open spec fn team_given(mode: GameMode, given: Seq<u8>, i: int) -> u8 {
    playing_team(mode, given[i])
}

/// The teams that the sessions get in a switch. `given` lists the teams for PvP, session by
/// session; elsewhere it is not looked at.
pub fn switch_teams(mode: GameMode, sessions: &Vec<SessionTeam>, given: &Vec<u8>) -> (r: Vec<u8>)
    requires
        mode == GameMode::Pvp ==> given@.len() == sessions@.len(),
    ensures
        r@.len() == sessions@.len(),
        forall|i: int| 0 <= i < r@.len() ==> #[trigger] r@[i] == team_given(mode, given@, i),
{
    let mut r: Vec<u8> = Vec::new();
    let mut i: usize = 0;
    while i < sessions.len()
        invariant
            mode == GameMode::Pvp ==> given@.len() == sessions@.len(),
            i <= sessions@.len(),
            r@.len() == i,
            forall|j: int| 0 <= j < r@.len() ==> #[trigger] r@[j] == team_given(mode, given@, j),
        decreases sessions@.len() - i,
    {
        let assigned: u8 = if i < given.len() { given[i] } else { 1 };
        r.push(team_in_mode(mode, assigned));
        i += 1;
    }
    r
}

/// Where each session goes in a switch: its unit, its new team, and the place of that team's
/// core in `places`, session by session.
pub fn plan_reassignments(
    sessions: &Vec<SessionTeam>,
    teams: &Vec<u8>,
    places: &Vec<(u32, u32)>,
) -> (r: Vec<Reassignment>)
    requires
        teams@.len() == sessions@.len(),
        places@.len() == sessions@.len(),
    ensures
        r@.len() == sessions@.len(),
        forall|i: int|
            0 <= i < r@.len() ==> #[trigger] r@[i] == (Reassignment {
                unit_id: sessions@[i].unit_id,
                team: teams@[i],
                spawn_x: places@[i].0,
                spawn_y: places@[i].1,
            }),
{
    let mut r: Vec<Reassignment> = Vec::new();
    let mut i: usize = 0;
    while i < sessions.len()
        invariant
            teams@.len() == sessions@.len(),
            places@.len() == sessions@.len(),
            i <= sessions@.len(),
            r@.len() == i,
            forall|j: int|
                0 <= j < r@.len() ==> #[trigger] r@[j] == (Reassignment {
                    unit_id: sessions@[j].unit_id,
                    team: teams@[j],
                    spawn_x: places@[j].0,
                    spawn_y: places@[j].1,
                }),
        decreases sessions@.len() - i,
    {
        r.push(
            Reassignment {
                unit_id: sessions[i].unit_id,
                team: teams[i],
                spawn_x: places[i].0,
                spawn_y: places[i].1,
            },
        );
        i += 1;
    }
    r
}

/// A unit after its reassignment: only a real change of team moves it.
pub open spec fn reassigned(combat: PlayerCombat, to: Reassignment) -> PlayerCombat {
    if combat.team != to.team {
        PlayerCombat { team: to.team, x: to.spawn_x, y: to.spawn_y }
    } else {
        combat
    }
}

/// The units after the reassignments, one after the other.
pub open spec fn all_reassigned(
    players: Map<i32, PlayerCombat>,
    list: Seq<Reassignment>,
) -> Map<i32, PlayerCombat>
    decreases list.len(),
{
    if list.len() == 0 {
        players
    } else {
        let before = all_reassigned(players, list.drop_last());
        let to = list.last();
        if before.dom().contains(to.unit_id) {
            before.insert(to.unit_id, reassigned(before[to.unit_id], to))
        } else {
            before
        }
    }
}

/// The units that changed their team, in order.
pub open spec fn moved_units(players: Map<i32, PlayerCombat>, list: Seq<Reassignment>) -> Seq<i32>
    decreases list.len(),
{
    if list.len() == 0 {
        Seq::empty()
    } else {
        let before = all_reassigned(players, list.drop_last());
        let moved = moved_units(players, list.drop_last());
        let to = list.last();
        if before.dom().contains(to.unit_id) && before[to.unit_id].team != to.team {
            moved.push(to.unit_id)
        } else {
            moved
        }
    }
}

fn reassign_players(players: &mut Registry<PlayerCombat>, list: &Vec<Reassignment>) -> (moved: Vec<
    i32,
>)
    requires
        old(players).wf(),
    ensures
        final(players).wf(),
        final(players)@ == all_reassigned(old(players)@, list@),
        moved@ == moved_units(old(players)@, list@),
{
    let ghost start = players@;
    let mut moved: Vec<i32> = Vec::new();
    let mut i: usize = 0;
    assert(list@.take(0) =~= Seq::empty());
    while i < list.len()
        invariant
            players.wf(),
            start == old(players)@,
            i <= list@.len(),
            players@ == all_reassigned(start, list@.take(i as int)),
            moved@ == moved_units(start, list@.take(i as int)),
        decreases list@.len() - i,
    {
        assert(list@.take(i + 1).drop_last() =~= list@.take(i as int));
        let to = list[i];
        let ghost before = players@;
        let found: Option<PlayerCombat> = match players.get(to.unit_id) {
            Some(combat) => Some(*combat),
            None => None,
        };
        match found {
            Some(combat) => {
                if combat.team != to.team {
                    moved.push(to.unit_id);
                    players.insert(
                        to.unit_id,
                        PlayerCombat { team: to.team, x: to.spawn_x, y: to.spawn_y },
                    );
                } else {
                    assert(before.insert(to.unit_id, combat) =~= before);
                }
            },
            None => {},
        }
        i += 1;
    }
    assert(list@.take(i as int) =~= list@);
    moved
}

/// Why a mode switch did not take place.
#[derive(Clone, Copy, Debug, PartialEq, Eq, Structural)]
pub enum SwitchAbort {
    UnknownMode,
    /// The rules of the map could not be derived.
    Rules,
    /// The spawns of the map could not be read.
    Spawns,
    /// The rules could not be written for the clients.
    RulesFrame,
}

/// What a mode switch sends: the rules to everyone, and the units that moved.
pub struct SwitchReport {
    pub mode: GameMode,
    pub removed_wave_units: usize,
    pub moved_units: Vec<i32>,
}

/// How a world stands to its pauses after a switch. PvP is paused automatically until its
/// teams are there.
pub open spec fn pauses_in(after: ModeWorld, mode: GameMode) -> bool {
    &&& !after.is_paused
    &&& after.pvp_auto_paused == (mode == GameMode::Pvp)
    &&& after.persistence_dirty
}

/// Switches the mode, all of it or nothing: the name of the mode, the rules, the spawns and
/// the frame for the clients are settled before the first change. Entering PvP releases a
/// manual pause and lets the automatic one take over; every other mode runs at once.
pub fn switch_mode(
    world: &mut ModeWorld,
    players: &mut Registry<PlayerCombat>,
    mode: &str,
    rules: Option<WaveRules>,
    spawns: Option<Vec<(i16, i16)>>,
    frame_ready: bool,
    reassignments: &Vec<Reassignment>,
) -> (r: Result<SwitchReport, SwitchAbort>)
    requires
        old(world).enemies.wf(),
        old(players).wf(),
    ensures
        final(players).wf(),
        final(world).enemies.wf(),
        r is Err <==> mode_of(mode@) is None || rules is None || spawns is None || !frame_ready,
        r matches Err(e) ==> {
            &&& *final(world) == *old(world)
            &&& *final(players) == *old(players)
            &&& e == if mode_of(mode@) is None {
                SwitchAbort::UnknownMode
            } else if rules is None {
                SwitchAbort::Rules
            } else if spawns is None {
                SwitchAbort::Spawns
            } else {
                SwitchAbort::RulesFrame
            }
        },
        r matches Ok(report) ==> {
            let to = mode_of(mode@).unwrap();
            &&& switched(*old(world), *final(world), to, rules.unwrap(), spawns.unwrap()@)
            &&& final(players)@ == all_reassigned(old(players)@, reassignments@)
            &&& report.mode == to
            &&& report.removed_wave_units == stale_units(*old(world), to).len()
            &&& report.moved_units@ == moved_units(old(players)@, reassignments@)
            &&& pauses_in(*final(world), to)
        },
{
    let to = match parse_mode(mode) {
        Some(to) => to,
        None => return Err(SwitchAbort::UnknownMode),
    };
    let rules = match rules {
        Some(rules) => rules,
        None => return Err(SwitchAbort::Rules),
    };
    let spawns = match spawns {
        Some(spawns) => spawns,
        None => return Err(SwitchAbort::Spawns),
    };
    if !frame_ready {
        return Err(SwitchAbort::RulesFrame);
    }
    let removed: usize = apply_mode_switch_world_state(world, to, rules, spawns);
    let moved = reassign_players(players, reassignments);
    world.is_paused = false;
    world.pvp_auto_paused = match to {
        GameMode::Pvp => true,
        _ => false,
    };
    world.persistence_dirty = true;
    Ok(SwitchReport { mode: to, removed_wave_units: removed, moved_units: moved })
}

// ---------------------------------------------------------------------------
// Loading units.

/// The order of groups after the units have joined, each once.
pub open spec fn grouped(order: Seq<i32>, ids: Seq<i32>) -> Seq<i32>
    decreases ids.len(),
{
    if ids.len() == 0 {
        order
    } else {
        let before = grouped(order, ids.drop_last());
        if before.contains(ids.last()) { before } else { before.push(ids.last()) }
    }
}

pub open spec fn unit_ids(list: Seq<(i32, u8)>) -> Seq<i32> {
    Seq::new(list.len(), |i: int| list[i].0)
}

/// The first number for units that come after a loaded save.
pub const FIRST_ENEMY_ID: i32 = 3_000_000;

/// Whether the units have come into the world, which is otherwise as it was: each stands under
/// its number with its team and has joined the groups, and the hostile ones are counted.
pub open spec fn units_added(before: ModeWorld, after: ModeWorld, list: Seq<(i32, u8)>) -> bool {
    &&& after.enemies.wf()
    &&& after.enemies@ == stocked(before.enemies@, list)
    &&& after.unit_group_order@ == grouped(before.unit_group_order@, unit_ids(list))
    &&& after.enemies_count == units_of_team(
        after.enemies@,
        after.enemies.spec_keys(),
        before.rules.wave_team,
    ).len()
    &&& after == (ModeWorld {
        enemies: after.enemies,
        unit_group_order: after.unit_group_order,
        enemies_count: after.enemies_count,
        ..before
    })
}

/// Brings the units of a save into the world and returns the next free number from `start`
/// on. A finished game is not brought back: the flag is left as it is.
pub fn add_units(world: &mut ModeWorld, loaded: &Vec<(i32, u8)>, start: i32) -> (next: i32)
    requires
        old(world).enemies.wf(),
    ensures
        units_added(*old(world), *final(world), loaded@),
        next == next_id(start, unit_ids(loaded@)),
{
    let mut ids: Vec<i32> = Vec::new();
    let ghost before = *world;
    let ghost numbers = unit_ids(loaded@);
    let mut i: usize = 0;
    assert(loaded@.take(0) =~= Seq::empty());
    assert(numbers.take(0) =~= Seq::empty());
    while i < loaded.len()
        invariant
            world.enemies.wf(),
            before == *old(world),
            *world == (ModeWorld {
                enemies: world.enemies,
                unit_group_order: world.unit_group_order,
                ..before
            }),
            i <= loaded@.len(),
            numbers == unit_ids(loaded@),
            world.enemies@ == stocked(before.enemies@, loaded@.take(i as int)),
            ids@ == numbers.take(i as int),
            world.unit_group_order@ == grouped(
                before.unit_group_order@,
                numbers.take(i as int),
            ),
        decreases loaded@.len() - i,
    {
        assert(loaded@.take(i + 1).drop_last() =~= loaded@.take(i as int));
        assert(numbers.take(i + 1).drop_last() =~= numbers.take(i as int));
        let id: i32 = loaded[i].0;
        world.enemies.insert(id, loaded[i].1);
        ids.push(id);
        if !contains_id(&world.unit_group_order, id) {
            world.unit_group_order.push(id);
        }
        i += 1;
        assert(ids@ =~= numbers.take(i as int));
    }
    assert(loaded@.take(i as int) =~= loaded@);
    assert(numbers.take(i as int) =~= numbers);
    world.enemies_count = hostile_unit_count(world);
    next_enemy_id(start, &ids)
}

/// Whether the units of the world have been replaced by those of a save, and navigation is to
/// be worked out anew.
pub open spec fn units_replaced(
    before: ModeWorld,
    after: ModeWorld,
    list: Seq<(i32, u8)>,
) -> bool {
    &&& after.enemies.wf()
    &&& after.enemies@ == stocked(Map::empty(), list)
    &&& after.unit_group_order@ == grouped(Seq::empty(), unit_ids(list))
    &&& after.enemies_count == units_of_team(
        after.enemies@,
        after.enemies.spec_keys(),
        before.rules.wave_team,
    ).len()
    &&& after.navigation_revision == next_revision(before.navigation_revision)
    &&& after == (ModeWorld {
        enemies: after.enemies,
        unit_group_order: after.unit_group_order,
        enemies_count: after.enemies_count,
        navigation_revision: after.navigation_revision,
        ..before
    })
}

/// Replaces the units of the world by those of a save and returns the next free number. A
/// finished game is not brought back by a load: the flag is left as it is.
pub fn load_units(world: &mut ModeWorld, loaded: &Vec<(i32, u8)>) -> (next: i32)
    requires
        old(world).enemies.wf(),
    ensures
        units_replaced(*old(world), *final(world), loaded@),
        next == next_id(FIRST_ENEMY_ID, unit_ids(loaded@)),
{
    world.enemies = Registry::new();
    world.unit_group_order = Vec::new();
    assert(world.unit_group_order@ =~= Seq::empty());
    let next: i32 = add_units(world, loaded, FIRST_ENEMY_ID);
    world.navigation_revision =
    if world.navigation_revision == u64::MAX { 0 } else { world.navigation_revision + 1 };
    next
}

/// Where the units of a factory go. The place is in bits of single-precision numbers.
#[derive(Clone, Copy, Debug, PartialEq, Eq, Structural)]
pub struct BuildingCommand {
    pub position: i32,
    pub target_x: u32,
    pub target_y: u32,
}

/// What was ordered in a world and what its logic keeps: the work under way, the commands of
/// buildings, the orders of units, who steers each unit, and the flags.
pub struct Records<O, F> {
    pub actions: PendingActions,
    pub building_commands: Registry<BuildingCommand>,
    pub unit_orders: Registry<O>,
    pub authorities: Registry<UnitAuthority>,
    pub logic_flags: NamedRegistry<F>,
}

impl<O, F> Records<O, F> {
    pub open spec fn wf(&self) -> bool {
        &&& self.building_commands.wf()
        &&& self.unit_orders.wf()
        &&& self.authorities.wf()
        &&& self.logic_flags.wf()
    }

    /// A world in which nothing was ordered.
    pub fn new() -> (r: Records<O, F>)
        ensures
            r.wf(),
            idle(r.actions),
            r.building_commands@ == Map::<i32, BuildingCommand>::empty(),
            r.unit_orders@ == Map::<i32, O>::empty(),
            r.authorities@ == Map::<i32, UnitAuthority>::empty(),
            r.logic_flags@ == Map::<Seq<char>, F>::empty(),
    {
        Records {
            actions: no_actions(),
            building_commands: Registry::new(),
            unit_orders: Registry::new(),
            authorities: Registry::new(),
            logic_flags: NamedRegistry::new(),
        }
    }
}

/// Nothing is under way, and nobody has anything in hand.
pub open spec fn idle(actions: PendingActions) -> bool {
    &&& actions.builds@ == Seq::<i32>::empty()
    &&& actions.breaks@ == Seq::<i32>::empty()
    &&& actions.team_plans@ == Seq::<Vec<i32>>::empty()
    &&& actions.session_plans@ == Seq::<Vec<i32>>::empty()
}

fn no_actions() -> (r: PendingActions)
    ensures
        idle(r),
{
    PendingActions {
        builds: Vec::new(),
        breaks: Vec::new(),
        team_plans: Vec::new(),
        session_plans: Vec::new(),
    }
}

/// What a save holds of the [`Records`].
pub struct SavedRecords<O, F> {
    pub building_commands: Vec<BuildingCommand>,
    pub unit_orders: Vec<(i32, O)>,
    pub authorities: Vec<(i32, UnitAuthority)>,
    pub logic_flags: Vec<(String, F)>,
}

/// The commands under the positions of their buildings.
pub open spec fn by_position(commands: Seq<BuildingCommand>) -> Seq<(i32, BuildingCommand)> {
    Seq::new(commands.len(), |i: int| (commands[i].position, commands[i]))
}

fn keyed_commands(commands: &Vec<BuildingCommand>) -> (r: Vec<(i32, BuildingCommand)>)
    ensures
        r@ == by_position(commands@),
{
    let mut r: Vec<(i32, BuildingCommand)> = Vec::new();
    let mut i: usize = 0;
    while i < commands.len()
        invariant
            i <= commands@.len(),
            r@ == by_position(commands@).take(i as int),
        decreases commands@.len() - i,
    {
        r.push((commands[i].position, commands[i]));
        i += 1;
        assert(r@ =~= by_position(commands@).take(i as int));
    }
    assert(r@ =~= by_position(commands@));
    r
}

/// Whether the records are those of a save on top of what there was. Work under way is not in a
/// save and cannot be taken up again, so none is left.
pub open spec fn records_added<O, F>(
    before: Records<O, F>,
    after: Records<O, F>,
    saved: SavedRecords<O, F>,
) -> bool {
    &&& after.wf()
    &&& idle(after.actions)
    &&& after.building_commands@ == stocked(
        before.building_commands@,
        by_position(saved.building_commands@),
    )
    &&& after.unit_orders@ == stocked(before.unit_orders@, saved.unit_orders@)
    &&& after.authorities@ == stocked(before.authorities@, saved.authorities@)
    &&& after.logic_flags@ == stocked(before.logic_flags@, by_name(saved.logic_flags@))
}

/// Puts the records of a save on top of those of the world.
pub fn add_records<O, F>(records: &mut Records<O, F>, saved: SavedRecords<O, F>)
    requires
        old(records).wf(),
    ensures
        records_added(*old(records), *final(records), saved),
{
    records.actions = no_actions();
    records.building_commands.stock(keyed_commands(&saved.building_commands));
    records.unit_orders.stock(saved.unit_orders);
    records.authorities.stock(saved.authorities);
    records.logic_flags.stock(saved.logic_flags);
}

/// Whether the records have been replaced by those of a save. The flags of the save are put
/// over those of the world, which keeps the others.
pub open spec fn records_replaced<O, F>(
    before: Records<O, F>,
    after: Records<O, F>,
    saved: SavedRecords<O, F>,
) -> bool {
    &&& after.wf()
    &&& idle(after.actions)
    &&& after.building_commands@ == stocked(
        Map::empty(),
        by_position(saved.building_commands@),
    )
    &&& after.unit_orders@ == stocked(Map::empty(), saved.unit_orders@)
    &&& after.authorities@ == stocked(Map::empty(), saved.authorities@)
    &&& after.logic_flags@ == stocked(before.logic_flags@, by_name(saved.logic_flags@))
}

/// Replaces the records of the world by those of a save.
pub fn load_records<O, F>(records: &mut Records<O, F>, saved: SavedRecords<O, F>)
    requires
        old(records).wf(),
    ensures
        records_replaced(*old(records), *final(records), saved),
{
    records.building_commands = Registry::new();
    records.unit_orders = Registry::new();
    records.authorities = Registry::new();
    add_records(records, saved);
}

/// What a save slot holds.
pub struct LoadedWorld<O, F> {
    /// The map to which the slot belongs, where it says so.
    pub map_name: Option<String>,
    /// The rules of the waves, where the slot holds them.
    pub rules: Option<WaveRules>,
    pub tiles: Vec<(i32, DynamicTile)>,
    /// Units with their teams.
    pub units: Vec<(i32, u8)>,
    pub records: SavedRecords<O, F>,
    pub numbers: SavedNumbers,
    pub stats: GameStats,
}

/// Whether a slot belongs to another map than the one that is played.
pub open spec fn of_other_map<O, F>(loaded: LoadedWorld<O, F>, active: Seq<char>) -> bool {
    loaded.map_name matches Some(name) && name@ != active
}

/// The world with the rules of a slot, where the slot holds them.
pub open spec fn with_rules(world: ModeWorld, rules: Option<WaveRules>) -> ModeWorld {
    ModeWorld { rules: or_keep(rules, world.rules), ..world }
}

/// Loads a slot into the running world: its buildings, rules, units, records, numbers and
/// counts. The rules come before the units, so that the hostile ones are counted by them. A
/// slot of another map is refused, and nothing is changed then. Players have to join again,
/// and work under way is dropped. Returns the next free number for units.
///
/// What other parts of the game keep of a slot, the cores of the teams and the links of power
/// nodes among it, is not touched here.
pub fn load_world<O, F>(
    world: &mut ModeWorld,
    map: &mut DynamicWorld,
    records: &mut Records<O, F>,
    numbers: &mut GameNumbers,
    players: &mut Registry<PlayerCombat>,
    sessions: &mut Registry<SessionPlayer>,
    active: &str,
    loaded: LoadedWorld<O, F>,
) -> (r: Result<i32, SaveMismatch>)
    requires
        old(world).enemies.wf(),
        old(map).wf(),
        old(records).wf(),
    ensures
        of_other_map(loaded, active@) ==> {
            &&& r == Err::<i32, SaveMismatch>(SaveMismatch::OtherMap)
            &&& *final(world) == *old(world)
            &&& *final(map) == *old(map)
            &&& *final(records) == *old(records)
            &&& *final(numbers) == *old(numbers)
            &&& *final(players) == *old(players)
            &&& *final(sessions) == *old(sessions)
        },
        !of_other_map(loaded, active@) ==> {
            &&& r == Ok::<i32, SaveMismatch>(next_id(FIRST_ENEMY_ID, unit_ids(loaded.units@)))
            &&& units_replaced(
                ModeWorld {
                    stats: loaded.stats,
                    ..with_rules(*old(world), loaded.rules)
                },
                *final(world),
                loaded.units@,
            )
            &&& final(map).wf()
            &&& final(map)@.tiles == stocked(Map::empty(), tile_views(loaded.tiles@))
            &&& final(map)@.footprint == old(map)@.footprint
            &&& records_replaced(*old(records), *final(records), loaded.records)
            &&& *final(numbers) == resumed(*old(numbers), loaded.numbers, None)
            &&& final(players).wf()
            &&& final(players)@ == Map::<i32, PlayerCombat>::empty()
            &&& final(sessions).wf()
            &&& final(sessions)@ == Map::<i32, SessionPlayer>::empty()
        },
{
    let checked = match &loaded.map_name {
        Some(name) => check_save_identity(Some(name.as_str()), active, false, true),
        None => check_save_identity(None, active, false, true),
    };
    match checked {
        Err(e) => return Err(e),
        Ok(_) => {},
    }
    load_buildings(map, loaded.tiles);
    match loaded.rules {
        Some(rules) => {
            world.rules = rules;
        },
        None => {},
    }
    world.stats = loaded.stats;
    let next: i32 = load_units(world, &loaded.units);
    *players = Registry::new();
    *sessions = Registry::new();
    load_records(records, loaded.records);
    resume_numbers(numbers, loaded.numbers, None);
    Ok(next)
}

/// What a start knows before it looks at the save.
pub struct Start<'a> {
    /// The map that is hosted.
    pub active: &'a str,
    /// Whether a map file was chosen.
    pub map_file: bool,
    pub save_exists: bool,
    /// The next free number for units so far.
    pub next_unit: i32,
    /// The bits of the health of a whole core.
    pub full_health: u32,
}

/// Why a start cannot use a save.
pub open spec fn start_mismatch<O, F>(start: Start<'_>, loaded: LoadedWorld<O, F>) -> Option<
    SaveMismatch,
> {
    save_mismatch(
        match loaded.map_name {
            Some(name) => Some(name@),
            None => None,
        },
        start.active@,
        start.map_file,
        start.save_exists,
    )
}

/// Whether the records are those of a save on top of what there was, and the units with an
/// active command obey it.
pub open spec fn records_resumed<O, F>(
    before: Records<O, F>,
    after: Records<O, F>,
    saved: SavedRecords<O, F>,
    commanded: Seq<i32>,
) -> bool {
    &&& after.wf()
    &&& idle(after.actions)
    &&& after.building_commands@ == stocked(
        before.building_commands@,
        by_position(saved.building_commands@),
    )
    &&& after.unit_orders@ == stocked(before.unit_orders@, saved.unit_orders@)
    &&& after.authorities@ == promoted(
        stocked(before.authorities@, saved.authorities@),
        commanded,
    )
    &&& after.logic_flags@ == stocked(before.logic_flags@, by_name(saved.logic_flags@))
}

/// Brings a new world up from its save. Saved buildings override those of the map, and what the
/// map has besides stays. The rules of the map hold; the save brings its units, records, numbers
/// and counts. Work under way is dropped, a core of which nothing was saved is whole, and units
/// with an active command (`commanded`) obey it. A save that does not belong to the map is
/// refused, and nothing is changed then. Returns the next free number for units.
pub fn resume_world<O, F>(
    world: &mut ModeWorld,
    map: &mut DynamicWorld,
    records: &mut Records<O, F>,
    numbers: &mut GameNumbers,
    start: &Start<'_>,
    loaded: LoadedWorld<O, F>,
    commanded: &Vec<i32>,
) -> (r: Result<i32, SaveMismatch>)
    requires
        old(world).enemies.wf(),
        old(map).wf(),
        old(records).wf(),
    ensures
        match start_mismatch(*start, loaded) {
            Some(e) => {
                &&& r == Err::<i32, SaveMismatch>(e)
                &&& *final(world) == *old(world)
                &&& *final(map) == *old(map)
                &&& *final(records) == *old(records)
                &&& *final(numbers) == *old(numbers)
            },
            None => {
                &&& r == Ok::<i32, SaveMismatch>(
                    next_id(start.next_unit, unit_ids(loaded.units@)),
                )
                &&& units_added(
                    ModeWorld { stats: loaded.stats, ..*old(world) },
                    *final(world),
                    loaded.units@,
                )
                &&& final(map).wf()
                &&& final(map)@ == (WorldView {
                    tiles: stocked(old(map)@.tiles, tile_views(loaded.tiles@)),
                    ..old(map)@
                })
                &&& records_resumed(
                    *old(records),
                    *final(records),
                    loaded.records,
                    commanded@,
                )
                &&& *final(numbers) == resumed(
                    *old(numbers),
                    loaded.numbers,
                    Some(start.full_health),
                )
            },
        },
{
    let checked = match &loaded.map_name {
        Some(name) => check_save_identity(
            Some(name.as_str()),
            start.active,
            start.map_file,
            start.save_exists,
        ),
        None => check_save_identity(None, start.active, start.map_file, start.save_exists),
    };
    match checked {
        Err(e) => return Err(e),
        Ok(_) => {},
    }
    world.stats = loaded.stats;
    let next: i32 = add_units(world, &loaded.units, start.next_unit);
    add_records(records, loaded.records);
    promote_commanded(&mut records.authorities, commanded);
    overlay_buildings(map, loaded.tiles);
    resume_numbers(numbers, loaded.numbers, Some(start.full_health));
    Ok(next)
}

/// A building that the save does not list stands after a start as the map had it.
pub proof fn law_untouched_buildings_stay(
    map: Map<i32, TileView>,
    saved: Seq<(i32, TileView)>,
    key: i32,
)
    requires
        map.dom().contains(key),
        forall|i: int| 0 <= i < saved.len() ==> (#[trigger] saved[i]).0 != key,
    ensures
        stocked(map, saved).dom().contains(key),
        stocked(map, saved)[key] == map[key],
{
    law_other_keys_stay(map, saved, key);
}

/// The next free number lies above that of every loaded unit, as long as numbers are left.
pub proof fn law_loaded_numbers_are_taken(list: Seq<(i32, u8)>, id: i32)
    requires
        stocked(Map::<i32, u8>::empty(), list).dom().contains(id),
        id < i32::MAX,
    ensures
        id < next_id(FIRST_ENEMY_ID, unit_ids(list)),
{
    lemma_loaded_unit_is_listed(list, id);
    law_next_id_is_new(FIRST_ENEMY_ID, unit_ids(list), id);
}

proof fn lemma_loaded_unit_is_listed(list: Seq<(i32, u8)>, id: i32)
    requires
        stocked(Map::<i32, u8>::empty(), list).dom().contains(id),
    ensures
        unit_ids(list).contains(id),
    decreases list.len(),
{
    if list.len() > 0 {
        if list.last().0 == id {
            assert(unit_ids(list)[list.len() - 1] == id);
        } else {
            lemma_loaded_unit_is_listed(list.drop_last(), id);
            let i = choose|i: int|
                0 <= i < unit_ids(list.drop_last()).len() && unit_ids(list.drop_last())[i] == id;
            assert(unit_ids(list)[i] == id);
        }
    }
}

// ---------------------------------------------------------------------------
// Exporting.

/// The block map with one building on it, where the building lies on the map.
pub open spec fn with_block(
    blocks: Seq<i16>,
    width: i32,
    height: i32,
    position: i32,
    block: i16,
) -> Seq<i16> {
    let x = tile_column(position);
    let y = tile_row(position);
    let index = y * width + x;
    if 0 <= x < width && 0 <= y < height && index < blocks.len() {
        blocks.update(index, block)
    } else {
        blocks
    }
}

/// The block map with the buildings on it, one after the other.
pub open spec fn overlaid(
    blocks: Seq<i16>,
    width: i32,
    height: i32,
    tiles: Seq<(i32, i16)>,
) -> Seq<i16>
    decreases tiles.len(),
{
    if tiles.len() == 0 {
        blocks
    } else {
        with_block(
            overlaid(blocks, width, height, tiles.drop_last()),
            width,
            height,
            tiles.last().0,
            tiles.last().1,
        )
    }
}

/// Puts the buildings onto the block map. Those that lie outside of it are left out.
pub fn overlay_blocks(blocks: &mut Vec<i16>, width: i32, height: i32, tiles: &Vec<(i32, i16)>)
    ensures
        final(blocks)@ == overlaid(old(blocks)@, width, height, tiles@),
        final(blocks)@.len() == old(blocks)@.len(),
{
    let ghost start = blocks@;
    let mut i: usize = 0;
    assert(tiles@.take(0) =~= Seq::empty());
    while i < tiles.len()
        invariant
            start == old(blocks)@,
            i <= tiles@.len(),
            blocks@ == overlaid(start, width, height, tiles@.take(i as int)),
            blocks@.len() == start.len(),
        decreases tiles@.len() - i,
    {
        assert(tiles@.take(i + 1).drop_last() =~= tiles@.take(i as int));
        let (x, y) = unpack_tile(tiles[i].0);
        let inside: bool = 0 <= x && (x as i32) < width && 0 <= y && (y as i32) < height;
        if inside {
            assert(0 <= y * width <= 32767 * 0x7FFF_FFFF) by (nonlinear_arith)
                requires
                    0 <= y <= 32767,
                    0 <= width <= 0x7FFF_FFFF,
            ;
            let index: i64 = y as i64 * width as i64 + x as i64;
            if (index as u64) < blocks.len() as u64 {
                blocks.set(index as usize, tiles[i].1);
            }
        }
        i += 1;
    }
    assert(tiles@.take(i as int) =~= tiles@);
}

// ---------------------------------------------------------------------------
// Finding players.

/// Whether a session is meant by a lower-case target: by its name, or by its identity in
/// any ASCII case.
pub open spec fn session_meant(session: SessionPlayer, target: Seq<char>) -> bool {
    lowercase_of(session.name@) == target || ascii_lower_text(session.uuid@) == ascii_lower_text(
        target,
    )
}

/// The first session that is meant.
pub open spec fn first_meant(
    sessions: Map<i32, SessionPlayer>,
    keys: Seq<i32>,
    target: Seq<char>,
) -> Option<i32>
    decreases keys.len(),
{
    if keys.len() == 0 {
        None
    } else if session_meant(sessions[keys[0]], target) {
        Some(keys[0])
    } else {
        first_meant(sessions, keys.skip(1), target)
    }
}

/// The first session that a lower-case target means.
pub fn find_session(sessions: &Registry<SessionPlayer>, target: &str) -> (r: Option<i32>)
    requires
        sessions.wf(),
    ensures
        r == first_meant(sessions@, sessions.spec_keys(), target@),
        r matches Some(key) ==> sessions@.dom().contains(key),
{
    let keys = sessions.keys();
    let mut i: usize = 0;
    assert(keys@.skip(0) =~= keys@);
    while i < keys.len()
        invariant
            sessions.wf(),
            i <= keys@.len(),
            keys@ == sessions.spec_keys(),
            forall|key: i32| keys@.contains(key) <==> sessions@.dom().contains(key),
            first_meant(sessions@, keys@, target@) == first_meant(
                sessions@,
                keys@.skip(i as int),
                target@,
            ),
        decreases keys@.len() - i,
    {
        assert(keys@.contains(keys@[i as int]));
        assert(keys@.skip(i as int).skip(1) =~= keys@.skip(i + 1));
        match sessions.get(keys[i]) {
            Some(session) => {
                let name = to_lowercase(session.name.as_str());
                if text_eq(name.as_str(), target) || eq_ignore_ascii_case(
                    session.uuid.as_str(),
                    target,
                ) {
                    return Some(keys[i]);
                }
            },
            None => {},
        }
        i += 1;
    }
    None
}

/// Whether a connection is meant by a kick: by the name of its player in lower case, or by
/// its address.
pub open spec fn kick_meant(connection: PendingConnection, target: Seq<char>) -> bool {
    (connection.player_name matches Some(name) && lowercase_of(name@) == target)
        || connection.ip@ == target
}

/// The connections that a kick means, in the order of the registry.
pub open spec fn kick_list(
    connections: Map<i32, PendingConnection>,
    keys: Seq<i32>,
    target: Seq<char>,
) -> Seq<i32> {
    keys.filter(|id: i32| kick_meant(connections[id], target))
}

/// Whether a connection is meant, given the lower-case name of its player.
pub fn connection_meant(lower_name: Option<&str>, ip: &str, target: &str) -> (r: bool)
    ensures
        r == ((lower_name matches Some(name) && name@ == target@) || ip@ == target@),
{
    match lower_name {
        Some(name) => text_eq(name, target) || text_eq(ip, target),
        None => text_eq(ip, target),
    }
}

/// The connections that a kick means.
pub fn kick_targets(connections: &Registry<PendingConnection>, target: &str) -> (r: Vec<i32>)
    requires
        connections.wf(),
    ensures
        r@ == kick_list(connections@, connections.spec_keys(), target@),
        forall|j: int| 0 <= j < r@.len() ==> connections@.dom().contains(#[trigger] r@[j]),
{
    let keys = connections.keys();
    let ghost meant = |id: i32| kick_meant(connections@[id], target@);
    let mut r: Vec<i32> = Vec::new();
    let mut i: usize = 0;
    proof {
        reveal(Seq::filter);
        assert(keys@.take(0).filter(meant) =~= Seq::empty());
    }
    while i < keys.len()
        invariant
            connections.wf(),
            i <= keys@.len(),
            meant == (|id: i32| kick_meant(connections@[id], target@)),
            forall|key: i32| keys@.contains(key) <==> connections@.dom().contains(key),
            r@ == keys@.take(i as int).filter(meant),
            forall|j: int| 0 <= j < r@.len() ==> connections@.dom().contains(#[trigger] r@[j]),
        decreases keys@.len() - i,
    {
        proof {
            reveal(Seq::filter);
            assert(keys@.take(i + 1).drop_last() =~= keys@.take(i as int));
            assert(keys@.contains(keys@[i as int]));
        }
        match connections.get(keys[i]) {
            Some(connection) => {
                let found: bool = match &connection.player_name {
                    Some(name) => {
                        let lower = to_lowercase(name.as_str());
                        connection_meant(Some(lower.as_str()), connection.ip.as_str(), target)
                    },
                    None => connection_meant(None, connection.ip.as_str(), target),
                };
                if found {
                    r.push(keys[i]);
                }
            },
            None => {},
        }
        i += 1;
    }
    assert(keys@.take(i as int) =~= keys@);
    r
}

/// What a kick does to the connections that it means: each gets the frame, and where a session
/// is meant too, its player is reported as kicked from that address, with no time to stay out.
pub open spec fn kicks(
    connections: Map<i32, PendingConnection>,
    sessions: Registry<SessionPlayer>,
    ids: Seq<i32>,
    target: Seq<char>,
    frame: Seq<u8>,
) -> Seq<EffectView>
    decreases ids.len(),
{
    if ids.len() == 0 {
        Seq::empty()
    } else {
        let before = kicks(connections, sessions, ids.drop_last(), target, frame);
        let id = ids.last();
        let kick = before.push(EffectView::Send { connection: id, frame, critical: true });
        match first_meant(sessions@, sessions.spec_keys(), target) {
            Some(key) => kick.push(
                EffectView::Kicked {
                    uuid: sessions@[key].uuid@,
                    ip: connections[id].ip@,
                    seconds: 0,
                },
            ),
            None => kick,
        }
    }
}

/// What a kick of a lower-case target does. It does nothing where it means no connection.
pub fn kick_effects(
    connections: &Registry<PendingConnection>,
    sessions: &Registry<SessionPlayer>,
    target: &str,
    frame: &Vec<u8>,
) -> (r: Vec<Effect>)
    requires
        connections.wf(),
        sessions.wf(),
    ensures
        effects_of(r@) == kicks(
            connections@,
            *sessions,
            kick_list(connections@, connections.spec_keys(), target@),
            target@,
            frame@,
        ),
        r@.len() == 0 <==> kick_list(connections@, connections.spec_keys(), target@).len() == 0,
{
    let ids = kick_targets(connections, target);
    let session = find_session(sessions, target);
    let mut r: Vec<Effect> = Vec::new();
    let mut i: usize = 0;
    assert(ids@.take(0) =~= Seq::empty());
    assert(effects_of(r@) =~= Seq::empty());
    while i < ids.len()
        invariant
            connections.wf(),
            sessions.wf(),
            i <= ids@.len(),
            session == first_meant(sessions@, sessions.spec_keys(), target@),
            session matches Some(key) ==> sessions@.dom().contains(key),
            forall|j: int|
                0 <= j < ids@.len() ==> connections@.dom().contains(#[trigger] ids@[j]),
            r@.len() >= i,
            i == 0 ==> r@.len() == 0,
            effects_of(r@) == kicks(
                connections@,
                *sessions,
                ids@.take(i as int),
                target@,
                frame@,
            ),
        decreases ids@.len() - i,
    {
        assert(ids@.take(i + 1).drop_last() =~= ids@.take(i as int));
        assert(connections@.dom().contains(ids@[i as int]));
        let ghost so_far = r@;
        r.push(
            Effect::Send {
                connection: ids[i],
                frame: slice_to_vec(frame.as_slice()),
                critical: true,
            },
        );
        assert(effects_of(r@) =~= effects_of(so_far).push(r@.last()@));
        let ghost kicked = r@;
        match session {
            Some(key) => match sessions.get(key) {
                Some(session) => {
                    r.push(
                        Effect::Kicked {
                            uuid: session.uuid.clone(),
                            ip: ip_of(connections, ids[i]),
                            seconds: 0,
                        },
                    );
                    assert(effects_of(r@) =~= effects_of(kicked).push(r@.last()@));
                },
                None => {},
            },
            None => {},
        }
        i += 1;
    }
    assert(ids@.take(i as int) =~= ids@);
    r
}

// ---------------------------------------------------------------------------
// Teams.

/// Why a player was not given a team.
#[derive(Clone, Copy, Debug, PartialEq, Eq, Structural)]
pub enum AssignError {
    UnknownTeam,
    NoPlayer,
    /// The player has no unit in the field.
    NoUnit,
}

pub open spec fn assign_result(
    sessions: Registry<SessionPlayer>,
    players: Map<i32, PlayerCombat>,
    target: Seq<char>,
    team: Option<u8>,
) -> Result<i32, AssignError> {
    match team {
        None => Err(AssignError::UnknownTeam),
        Some(_) => match first_meant(sessions@, sessions.spec_keys(), target) {
            None => Err(AssignError::NoPlayer),
            Some(key) => {
                let unit = sessions@[key].unit_id;
                if players.dom().contains(unit) { Ok(unit) } else { Err(AssignError::NoUnit) }
            },
        },
    }
}

/// The units after a player was given a team, or was not.
pub open spec fn after_assignment(
    players: Map<i32, PlayerCombat>,
    result: Result<i32, AssignError>,
    team: Option<u8>,
) -> Map<i32, PlayerCombat> {
    match result {
        Err(_) => players,
        Ok(unit) => players.insert(unit, PlayerCombat { team: team.unwrap(), ..players[unit] }),
    }
}

/// Gives a team to the player that a lower-case target means. The unit stays where it is.
pub fn assign_team(
    sessions: &Registry<SessionPlayer>,
    players: &mut Registry<PlayerCombat>,
    target: &str,
    team: Option<u8>,
) -> (r: Result<i32, AssignError>)
    requires
        sessions.wf(),
        old(players).wf(),
    ensures
        final(players).wf(),
        r == assign_result(*sessions, old(players)@, target@, team),
        final(players)@ == after_assignment(old(players)@, r, team),
{
    let team: u8 = match team {
        Some(team) => team,
        None => return Err(AssignError::UnknownTeam),
    };
    let key: i32 = match find_session(sessions, target) {
        Some(key) => key,
        None => return Err(AssignError::NoPlayer),
    };
    let unit: i32 = match sessions.get(key) {
        Some(session) => session.unit_id,
        None => return Err(AssignError::NoPlayer),
    };
    let combat: PlayerCombat = match players.get(unit) {
        Some(combat) => *combat,
        None => return Err(AssignError::NoUnit),
    };
    players.insert(unit, PlayerCombat { team, x: combat.x, y: combat.y });
    Ok(unit)
}

// ---------------------------------------------------------------------------
// Commands.

/// A command of the console. Coordinates are bits of single-precision numbers.
pub enum RuntimeCommand {
    Save(String),
    SaveMsav(String),
    Load(String),
    Kick(String),
    Say(String),
    GameOver,
    SpawnEnemy { unit: String, count: u32, x: Option<u32>, y: Option<u32> },
    HostMap { map: String, mode: String },
    SetTeam { player: String, team: String },
    NextMap,
    Pause(bool),
    SetMode { mode: String },
}

/// What is left to be done for a command.
pub enum RuntimePlan {
    /// Save to the file of this name, beside the save file.
    SaveTo(String),
    /// Write the map to the file of this name.
    ExportTo(String),
    /// Load the file of this name.
    LoadFrom(String),
    InvalidSlot,
    /// Kick whoever the lower-case target means, with this frame.
    KickMatching { target: String, frame: Vec<u8> },
    Broadcast(Vec<u8>),
    /// The message does not fit a packet.
    Unsendable,
    /// Tell the clients that the game is over.
    EmitGameOver,
    Spawn { unit: String, count: u32, x: Option<u32>, y: Option<u32> },
    Host { map: String, mode: String },
    /// Host the next map of the rotation in this mode.
    HostNext { mode: String },
    /// Give the team to whoever the lower-case target means.
    Assign { target: String, team: String },
    Paused(bool),
    Switch { mode: String },
}

/// The flags of a game that a command sets at once.
#[derive(Clone, Copy, Debug, PartialEq, Eq, Structural)]
pub struct GameFlags {
    pub game_over: bool,
    pub is_paused: bool,
    pub pvp_auto_paused: bool,
}

/// A message of the server as clients see it.
pub open spec fn server_line(message: Seq<char>) -> Seq<char> {
    "[accent][Server][] "@ + message
}

/// Whether this is the plan for a command.
pub open spec fn planned(
    command: RuntimeCommand,
    base: SavePath,
    mode: GameMode,
    plan: RuntimePlan,
) -> bool {
    match command {
        RuntimeCommand::Save(slot) => if valid_slot(slot@) {
            plan matches RuntimePlan::SaveTo(name) && name@ == slot_name(
                stem_of(base),
                slot@,
                extension_of(base),
            )
        } else {
            plan is InvalidSlot
        },
        RuntimeCommand::SaveMsav(slot) => if valid_slot(slot@) {
            plan matches RuntimePlan::ExportTo(name) && name@ == slot_name(
                stem_of(base),
                slot@,
                "msav"@,
            )
        } else {
            plan is InvalidSlot
        },
        RuntimeCommand::Load(slot) => if valid_slot(slot@) {
            plan matches RuntimePlan::LoadFrom(name) && name@ == slot_name(
                stem_of(base),
                slot@,
                extension_of(base),
            )
        } else {
            plan is InvalidSlot
        },
        RuntimeCommand::Kick(target) => match text_frame(
            KICK_PACKET_ID,
            "Kicked by server console"@,
        ) {
            Ok(bytes) => plan matches RuntimePlan::KickMatching { target: t, frame } && t@
                == lowercase_of(target@) && frame@ == bytes,
            Err(_) => plan is Unsendable,
        },
        RuntimeCommand::Say(message) => match text_frame(
            SEND_MESSAGE_PACKET_ID,
            server_line(message@),
        ) {
            Ok(bytes) => plan matches RuntimePlan::Broadcast(frame) && frame@ == bytes,
            Err(_) => plan is Unsendable,
        },
        RuntimeCommand::GameOver => plan is EmitGameOver,
        RuntimeCommand::SpawnEnemy { unit, count, x, y } => plan == (RuntimePlan::Spawn {
            unit,
            count,
            x,
            y,
        }),
        RuntimeCommand::HostMap { map, mode: m } => plan == (RuntimePlan::Host { map, mode: m }),
        RuntimeCommand::SetTeam { player, team } => plan matches RuntimePlan::Assign {
            target,
            team: t,
        } && target@ == lowercase_of(player@) && t == team,
        RuntimeCommand::NextMap => plan matches RuntimePlan::HostNext { mode: m } && m@
            == mode_text(mode),
        RuntimeCommand::Pause(paused) => plan == RuntimePlan::Paused(paused),
        RuntimeCommand::SetMode { mode: m } => plan == (RuntimePlan::Switch { mode: m }),
    }
}

/// The flags after a command. A manual pause or resume ends the automatic pause, so that it
/// never overrides the console.
pub open spec fn flags_after(command: RuntimeCommand, flags: GameFlags) -> GameFlags {
    match command {
        RuntimeCommand::GameOver => GameFlags { game_over: true, ..flags },
        RuntimeCommand::Pause(paused) => GameFlags {
            is_paused: paused,
            pvp_auto_paused: false,
            ..flags
        },
        _ => flags,
    }
}

/// Decides what a command means. Flags change at once; everything else is a plan.
pub fn plan_command(
    command: RuntimeCommand,
    base: &SavePath,
    mode: GameMode,
    flags: &mut GameFlags,
) -> (plan: RuntimePlan)
    ensures
        planned(command, *base, mode, plan),
        *final(flags) == flags_after(command, *old(flags)),
{
    match command {
        RuntimeCommand::Save(slot) => match save_slot_path(base, slot.as_str()) {
            Ok(path) => RuntimePlan::SaveTo(path),
            Err(_) => RuntimePlan::InvalidSlot,
        },
        RuntimeCommand::SaveMsav(slot) => match export_slot_path(base, slot.as_str()) {
            Ok(path) => RuntimePlan::ExportTo(path),
            Err(_) => RuntimePlan::InvalidSlot,
        },
        RuntimeCommand::Load(slot) => match save_slot_path(base, slot.as_str()) {
            Ok(path) => RuntimePlan::LoadFrom(path),
            Err(_) => RuntimePlan::InvalidSlot,
        },
        RuntimeCommand::Kick(target) => match encode_text_frame(
            KICK_PACKET_ID,
            "Kicked by server console",
        ) {
            Ok(frame) => RuntimePlan::KickMatching { target: to_lowercase(target.as_str()), frame },
            Err(_) => RuntimePlan::Unsendable,
        },
        RuntimeCommand::Say(message) => {
            let mut line = "[accent][Server][] ".to_owned();
            line.append(message.as_str());
            match encode_text_frame(SEND_MESSAGE_PACKET_ID, line.as_str()) {
                Ok(frame) => RuntimePlan::Broadcast(frame),
                Err(_) => RuntimePlan::Unsendable,
            }
        },
        RuntimeCommand::GameOver => {
            flags.game_over = true;
            RuntimePlan::EmitGameOver
        },
        RuntimeCommand::SpawnEnemy { unit, count, x, y } => RuntimePlan::Spawn {
            unit,
            count,
            x,
            y,
        },
        RuntimeCommand::HostMap { map, mode: m } => RuntimePlan::Host { map, mode: m },
        RuntimeCommand::SetTeam { player, team } => RuntimePlan::Assign {
            target: to_lowercase(player.as_str()),
            team,
        },
        RuntimeCommand::NextMap => RuntimePlan::HostNext { mode: mode_name(mode) },
        RuntimeCommand::Pause(paused) => {
            flags.pvp_auto_paused = false;
            flags.is_paused = paused;
            RuntimePlan::Paused(paused)
        },
        RuntimeCommand::SetMode { mode: m } => RuntimePlan::Switch { mode: m },
    }
}

/// What a console spawn is reported as.
#[derive(Clone, Copy, Debug, PartialEq, Eq, Structural)]
pub enum SpawnReport {
    Spawned(usize),
    /// Strict mode refuses units that it has no data for.
    StrictRejected,
    NotSpawned,
}

/// What a console spawn is reported as; see [`report_spawn`].
pub open spec fn spawn_report(spawned: usize, strict_mode: bool, known_unit: bool) -> SpawnReport {
    if spawned > 0 {
        SpawnReport::Spawned(spawned)
    } else if strict_mode && !known_unit {
        SpawnReport::StrictRejected
    } else {
        SpawnReport::NotSpawned
    }
}

/// Reports a console spawn.
pub fn report_spawn(spawned: usize, strict_mode: bool, known_unit: bool) -> (r: SpawnReport)
    ensures
        r == spawn_report(spawned, strict_mode, known_unit),
{
    if spawned > 0 {
        SpawnReport::Spawned(spawned)
    } else if strict_mode && !known_unit {
        SpawnReport::StrictRejected
    } else {
        SpawnReport::NotSpawned
    }
}

} // verus!
