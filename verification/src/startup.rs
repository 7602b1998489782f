//! Bringing a world up: which map it is, whether a save belongs to it, and what a save
//! restores.

use crate::float_bits::{at_most, clamp_to, clamped, le, ZERO};
use crate::registry::Registry;
use crate::text::text_eq;
use vstd::prelude::*;
use vstd::string::*;

verus! {

// ---------------------------------------------------------------------------
// The map.

/// The name of the map that is hosted. A configured name counts unless it is the name of
/// the built-in map and a map file is given; then the file gives the name.
pub open spec fn map_name_of(
    configured: Seq<char>,
    map_file: bool,
    stem: Option<Seq<char>>,
) -> Seq<char> {
    if map_file && configured == "maze"@ {
        match stem {
            Some(stem) => stem,
            None => "custom"@,
        }
    } else {
        configured
    }
}

/// The name of the map that is hosted. `stem` is the name of the map file without its
/// extension, where it is a text.
pub fn hosted_map_name(configured: &str, map_file: bool, stem: Option<&str>) -> (r: String)
    ensures
        r@ == map_name_of(
            configured@,
            map_file,
            match stem {
                Some(s) => Some(s@),
                None => None,
            },
        ),
{
    if map_file && text_eq(configured, "maze") {
        match stem {
            Some(stem) => stem.to_owned(),
            None => "custom".to_owned(),
        }
    } else {
        configured.to_owned()
    }
}

/// Why a save cannot be used.
#[derive(Clone, Copy, Debug, PartialEq, Eq, Structural)]
pub enum SaveMismatch {
    /// It belongs to another map.
    OtherMap,
    /// It does not say to which map it belongs, and a map was chosen.
    NoIdentity,
}

pub open spec fn save_mismatch(
    saved: Option<Seq<char>>,
    active: Seq<char>,
    map_file: bool,
    save_exists: bool,
) -> Option<SaveMismatch> {
    match saved {
        Some(name) => if name == active { None } else { Some(SaveMismatch::OtherMap) },
        None => if map_file && save_exists { Some(SaveMismatch::NoIdentity) } else { None },
    }
}

/// Checks that a save belongs to the map that is hosted.
pub fn check_save_identity(
    saved: Option<&str>,
    active: &str,
    map_file: bool,
    save_exists: bool,
) -> (r: Result<(), SaveMismatch>)
    ensures
        ({
            let name = match saved {
                Some(s) => Some(s@),
                None => None,
            };
            match save_mismatch(name, active@, map_file, save_exists) {
                None => r == Ok::<(), SaveMismatch>(()),
                Some(e) => r == Err::<(), SaveMismatch>(e),
            }
        }),
{
    match saved {
        Some(name) => {
            if text_eq(name, active) {
                Ok(())
            } else {
                Err(SaveMismatch::OtherMap)
            }
        },
        None => {
            if map_file && save_exists {
                Err(SaveMismatch::NoIdentity)
            } else {
                Ok(())
            }
        },
    }
}

// ---------------------------------------------------------------------------
// Units.

/// The next number after those of the loaded units, from `start` on.
pub open spec fn next_id(start: i32, ids: Seq<i32>) -> i32
    decreases ids.len(),
{
    if ids.len() == 0 {
        start
    } else {
        let before = next_id(start, ids.drop_last());
        let after = if ids.last() == i32::MAX { i32::MAX } else { (ids.last() + 1) as i32 };
        if before < after { after } else { before }
    }
}

/// The next number after those of the loaded units, from `start` on.
pub fn next_enemy_id(start: i32, ids: &Vec<i32>) -> (r: i32)
    ensures
        r == next_id(start, ids@),
{
    let mut next: i32 = start;
    let mut i: usize = 0;
    assert(ids@.take(0) =~= Seq::empty());
    while i < ids.len()
        invariant
            i <= ids@.len(),
            next == next_id(start, ids@.take(i as int)),
        decreases ids@.len() - i,
    {
        assert(ids@.take(i + 1).drop_last() =~= ids@.take(i as int));
        let after: i32 = if ids[i] == i32::MAX { i32::MAX } else { ids[i] + 1 };
        if next < after {
            next = after;
        }
        i += 1;
    }
    assert(ids@.take(i as int) =~= ids@);
    next
}

/// The next number is not that of a loaded unit, as long as numbers are left.
pub proof fn law_next_id_is_new(start: i32, ids: Seq<i32>, id: i32)
    requires
        ids.contains(id),
        id < i32::MAX,
    ensures
        id < next_id(start, ids),
        start <= next_id(start, ids),
    decreases ids.len(),
{
    let front = ids.drop_last();
    lemma_next_id_grows(start, front);
    if ids.last() != id {
        let i = choose|i: int| 0 <= i < ids.len() && ids[i] == id;
        assert(front[i] == id);
        law_next_id_is_new(start, front, id);
    }
}

proof fn lemma_next_id_grows(start: i32, ids: Seq<i32>)
    ensures
        start <= next_id(start, ids),
    decreases ids.len(),
{
    if ids.len() > 0 {
        lemma_next_id_grows(start, ids.drop_last());
    }
}

/// Who steers a unit.
#[derive(Clone, Copy, Debug, PartialEq, Eq, Structural)]
pub enum UnitAuthority {
    DefaultAi,
    Command,
    Player,
    Logic,
}

/// The authorities after the commanded units have been promoted: a unit that the default
/// AI steers obeys its command, every other unit keeps its master.
pub open spec fn promoted(units: Map<i32, UnitAuthority>, commanded: Seq<i32>) -> Map<
    i32,
    UnitAuthority,
>
    decreases commanded.len(),
{
    if commanded.len() == 0 {
        units
    } else {
        let before = promoted(units, commanded.drop_last());
        let id = commanded.last();
        if before.dom().contains(id) && before[id] == UnitAuthority::DefaultAi {
            before.insert(id, UnitAuthority::Command)
        } else {
            before
        }
    }
}

/// Gives the units with an active command to that command. Saves from before the authority
/// was stored load every unit under the default AI.
pub fn promote_commanded(units: &mut Registry<UnitAuthority>, commanded: &Vec<i32>)
    requires
        old(units).wf(),
    ensures
        final(units).wf(),
        final(units)@ == promoted(old(units)@, commanded@),
{
    let ghost start = units@;
    let mut i: usize = 0;
    assert(commanded@.take(0) =~= Seq::empty());
    while i < commanded.len()
        invariant
            units.wf(),
            start == old(units)@,
            i <= commanded@.len(),
            units@ == promoted(start, commanded@.take(i as int)),
        decreases commanded@.len() - i,
    {
        assert(commanded@.take(i + 1).drop_last() =~= commanded@.take(i as int));
        let id: i32 = commanded[i];
        let default_ai: bool = match units.get(id) {
            Some(authority) => match *authority {
                UnitAuthority::DefaultAi => true,
                _ => false,
            },
            None => false,
        };
        if default_ai {
            units.insert(id, UnitAuthority::Command);
        }
        i += 1;
    }
    assert(commanded@.take(i as int) =~= commanded@);
}

// ---------------------------------------------------------------------------
// Buildings of the map.

/// The bits of the smallest positive normal number.
pub const MIN_POSITIVE: u32 = 0x0080_0000;

/// The health of a building after loading: the saved one where it lies between 0 and the
/// maximum, else that of the map; above zero and at most the maximum.
pub open spec fn health_after_load(saved: Option<u32>, template: u32, maximum: u32) -> u32 {
    let usable = match saved {
        Some(h) => if at_most(ZERO, h) && at_most(h, maximum) { h } else { template },
        None => template,
    };
    clamped(usable, MIN_POSITIVE, maximum)
}

/// The health of a building after loading.
pub fn restored_health(saved: Option<u32>, template: u32, maximum: u32) -> (r: u32)
    requires
        at_most(MIN_POSITIVE, maximum),
    ensures
        r == health_after_load(saved, template, maximum),
{
    let usable: u32 = match saved {
        Some(h) => if le(ZERO, h) && le(h, maximum) { h } else { template },
        None => template,
    };
    clamp_to(usable, MIN_POSITIVE, maximum)
}

/// A building that the map came with. Healths are bits of single-precision numbers.
pub struct BuildingTemplate {
    pub position: i32,
    pub health: u32,
    pub maximum: u32,
}

/// The last saved health of a position.
pub open spec fn last_saved(saved: Seq<(i32, u32)>, position: i32) -> Option<u32>
    decreases saved.len(),
{
    if saved.len() == 0 {
        None
    } else if saved.last().0 == position {
        Some(saved.last().1)
    } else {
        last_saved(saved.drop_last(), position)
    }
}

/// The buildings of the map that still stand after loading, with their health. One whose
/// position was saved as empty is gone.
pub open spec fn standing(
    templates: Seq<BuildingTemplate>,
    blocks: Map<i32, i16>,
    saved: Seq<(i32, u32)>,
) -> Seq<(i32, u32)>
    decreases templates.len(),
{
    if templates.len() == 0 {
        Seq::empty()
    } else {
        let before = standing(templates.drop_last(), blocks, saved);
        let t = templates.last();
        if blocks.dom().contains(t.position) && blocks[t.position] == 0 {
            before
        } else {
            before.push(
                (t.position, health_after_load(last_saved(saved, t.position), t.health, t.maximum)),
            )
        }
    }
}

fn find_saved(saved: &Vec<(i32, u32)>, position: i32) -> (r: Option<u32>)
    ensures
        r == last_saved(saved@, position),
{
    let mut i: usize = saved.len();
    assert(saved@.take(i as int) =~= saved@);
    while i > 0
        invariant
            i <= saved@.len(),
            last_saved(saved@, position) == last_saved(saved@.take(i as int), position),
        decreases i,
    {
        assert(saved@.take(i as int).drop_last() =~= saved@.take(i - 1));
        if saved[i - 1].0 == position {
            return Some(saved[i - 1].1);
        }
        i -= 1;
    }
    None
}

/// The buildings of the map that still stand after loading, with their health.
pub fn standing_buildings(
    templates: &Vec<BuildingTemplate>,
    blocks: &Registry<i16>,
    saved: &Vec<(i32, u32)>,
) -> (r: Vec<(i32, u32)>)
    requires
        blocks.wf(),
        forall|i: int|
            0 <= i < templates@.len() ==> at_most(
                MIN_POSITIVE,
                (#[trigger] templates@[i]).maximum,
            ),
    ensures
        r@ == standing(templates@, blocks@, saved@),
{
    let mut r: Vec<(i32, u32)> = Vec::new();
    let mut i: usize = 0;
    assert(templates@.take(0) =~= Seq::empty());
    while i < templates.len()
        invariant
            blocks.wf(),
            i <= templates@.len(),
            forall|i: int|
                0 <= i < templates@.len() ==> at_most(
                    MIN_POSITIVE,
                    (#[trigger] templates@[i]).maximum,
                ),
            r@ == standing(templates@.take(i as int), blocks@, saved@),
        decreases templates@.len() - i,
    {
        assert(templates@.take(i + 1).drop_last() =~= templates@.take(i as int));
        let template = &templates[i];
        let destroyed: bool = match blocks.get(template.position) {
            Some(block) => *block == 0,
            None => false,
        };
        if !destroyed {
            let known = find_saved(saved, template.position);
            r.push((template.position, restored_health(known, template.health, template.maximum)));
        }
        i += 1;
    }
    assert(templates@.take(i as int) =~= templates@);
    r
}

/// Where the map gives numbers, a standing building is alive and not overfull.
pub proof fn law_restored_health_is_in_range(saved: Option<u32>, template: u32, maximum: u32)
    requires
        at_most(MIN_POSITIVE, maximum),
        at_most(template, template),
    ensures
        at_most(MIN_POSITIVE, health_after_load(saved, template, maximum)),
        at_most(health_after_load(saved, template, maximum), maximum),
{
}

// ---------------------------------------------------------------------------
// The game.

/// The running numbers of a game. Times and healths are bits of floating-point numbers.
pub struct GameNumbers {
    pub simulation_time: u64,
    pub wave: i32,
    pub wave_time: u32,
    pub core_health: u32,
    pub core_items: Vec<i32>,
}

/// What a save says of the running numbers.
pub struct SavedNumbers {
    pub simulation_time: Option<u64>,
    pub wave: Option<i32>,
    pub wave_time: Option<u32>,
    pub core_health: Option<u32>,
    pub core_items: Option<Vec<i32>>,
}

pub open spec fn or_keep<T>(saved: Option<T>, now: T) -> T {
    match saved {
        Some(v) => v,
        None => now,
    }
}

/// The numbers after a load: what the save holds, else what there was. With `full_health`
/// given, a save without a core health leaves the core whole.
pub open spec fn resumed(
    now: GameNumbers,
    saved: SavedNumbers,
    full_health: Option<u32>,
) -> GameNumbers {
    GameNumbers {
        simulation_time: or_keep(saved.simulation_time, now.simulation_time),
        wave: or_keep(saved.wave, now.wave),
        wave_time: or_keep(saved.wave_time, now.wave_time),
        core_health: or_keep(saved.core_health, or_keep(full_health, now.core_health)),
        core_items: or_keep(saved.core_items, now.core_items),
    }
}

/// Takes from a save what it holds; everything else stays. On a fresh start
/// (`full_health` given) a save without a core health leaves the core whole.
pub fn resume_numbers(now: &mut GameNumbers, saved: SavedNumbers, full_health: Option<u32>)
    ensures
        *final(now) == resumed(*old(now), saved, full_health),
{
    match saved.simulation_time {
        Some(v) => {
            now.simulation_time = v;
        },
        None => {},
    }
    match saved.core_items {
        Some(v) => {
            now.core_items = v;
        },
        None => {},
    }
    match saved.wave {
        Some(v) => {
            now.wave = v;
        },
        None => {},
    }
    match saved.wave_time {
        Some(v) => {
            now.wave_time = v;
        },
        None => {},
    }
    match saved.core_health {
        Some(v) => {
            now.core_health = v;
        },
        None => match full_health {
            Some(v) => {
                now.core_health = v;
            },
            None => {},
        },
    }
}

} // verus!
