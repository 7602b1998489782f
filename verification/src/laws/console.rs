//! What the commands of the console do to the flags, the players and the files.

use crate::commands::EffectView;
use crate::laws::workshop::lemma_filter_members;
use crate::outbound::PendingConnection;
use crate::protocol::{KICK_PACKET_ID, SEND_MESSAGE_PACKET_ID};
use crate::registry::Registry;
use crate::runtime::{
    after_assignment, assign_result, first_meant, flags_after, kick_list, kick_meant, kicks,
    mode_of, mode_text, planned, slot_char, slot_name, spawn_report, stem_of, valid_slot,
    AssignError, GameFlags, PlayerCombat, RuntimeCommand, RuntimePlan, SavePath, SpawnReport,
};
use crate::text::{ascii_lower_text, lowercase_of};
use crate::wire::{text_frame, GameMode, SessionPlayer};
use vstd::prelude::*;
use vstd::utf8::encode_utf8;

verus! {

// ---------------------------------------------------------------------------
// Flags.

/// After a pause the game is paused and after a resume it runs, whatever the flags were; a
/// resume takes back a pause, and a pause a resume. Either ends the automatic pause, and
/// neither ends the game or brings it back.
pub proof fn law_pause_and_resume(flags: GameFlags)
    ensures
        ({
            let paused = flags_after(RuntimeCommand::Pause(true), flags);
            let resumed = flags_after(RuntimeCommand::Pause(false), flags);
            &&& paused.is_paused && !paused.pvp_auto_paused
            &&& !resumed.is_paused && !resumed.pvp_auto_paused
            &&& paused.game_over == flags.game_over && resumed.game_over == flags.game_over
            &&& !flags_after(RuntimeCommand::Pause(false), paused).is_paused
            &&& flags_after(RuntimeCommand::Pause(false), paused) == resumed
            &&& flags_after(RuntimeCommand::Pause(true), resumed) == paused
            &&& flags_after(RuntimeCommand::Pause(true), paused) == paused
        }),
{
}

/// A game that the console ends is over, and keeps its pauses. No command brings it back,
/// and every command but a pause and an end leaves the flags alone.
pub proof fn law_game_over_stays(command: RuntimeCommand, flags: GameFlags)
    ensures
        flags_after(RuntimeCommand::GameOver, flags).game_over,
        flags_after(RuntimeCommand::GameOver, flags).is_paused == flags.is_paused,
        flags_after(RuntimeCommand::GameOver, flags).pvp_auto_paused == flags.pvp_auto_paused,
        flags.game_over ==> flags_after(command, flags).game_over,
        command !is GameOver ==> flags_after(command, flags).game_over == flags.game_over,
        command !is GameOver && command !is Pause ==> flags_after(command, flags) == flags,
{
}

// ---------------------------------------------------------------------------
// Slots.

/// A slot has a name of one to 64 letters, digits, hyphens and underscores; no other name is
/// accepted.
pub proof fn law_slot_names(slot: Seq<char>)
    ensures
        valid_slot(slot) <==> 1 <= slot.len() <= 64 && forall|i: int|
            0 <= i < slot.len() ==> {
                let c = #[trigger] slot[i];
                'a' <= c <= 'z' || 'A' <= c <= 'Z' || '0' <= c <= '9' || c == '-' || c == '_'
            },
{
    if forall|i: int| 0 <= i < slot.len() ==> slot_char(#[trigger] slot[i]) {
        assert(vstd::utf8::is_ascii_chars(slot)) by {
            assert forall|i: int| 0 <= i < slot.len() implies (0 <= (#[trigger] slot[i]) as nat)
                && (slot[i] as nat) < 128 by {
                assert(slot_char(slot[i]));
            }
        }
        vstd::utf8::is_ascii_chars_encode_utf8(slot);
        assert(encode_utf8(slot).len() == slot.len());
    } else {
        let i = choose|i: int| 0 <= i < slot.len() && !slot_char(#[trigger] slot[i]);
        assert(!slot_char(slot[i]));
    }
    if forall|i: int|
        0 <= i < slot.len() ==> {
            let c = #[trigger] slot[i];
            'a' <= c <= 'z' || 'A' <= c <= 'Z' || '0' <= c <= '9' || c == '-' || c == '_'
        } {
        assert forall|i: int| 0 <= i < slot.len() implies slot_char(#[trigger] slot[i]) by {}
    }
}

/// The file of a slot is named by the stem of the save file, the slot and the extension.
pub proof fn law_slot_file_name(stem: Seq<char>, slot: Seq<char>, extension: Seq<char>)
    ensures
        ({
            let name = slot_name(stem, slot, extension);
            let a = stem.len() as int;
            let b = a + 1 + slot.len();
            &&& name.len() == b + 1 + extension.len()
            &&& name.take(a) == stem
            &&& name[a] == '-'
            &&& name.subrange(a + 1, b) == slot
            &&& name[b] == '.'
            &&& name.skip(b + 1) == extension
        }),
{
    reveal_strlit("-");
    reveal_strlit(".");
    let name = slot_name(stem, slot, extension);
    let a = stem.len() as int;
    let b = a + 1 + slot.len();
    assert("-"@.len() == 1 && "."@.len() == 1);
    assert("-"@[0] == '-' && "."@[0] == '.');
    assert(name.take(a) =~= stem);
    assert(name.subrange(a + 1, b) =~= slot);
    assert(name.skip(b + 1) =~= extension);
    assert(name[a] == "-"@[0]);
    assert(name[b] == "."@[0]);
}

/// What is saved under a slot is what is loaded from it: both name the same file, and both
/// refuse the same names. An export has the slot's name too, with its own extension.
pub proof fn law_load_reads_what_save_wrote(
    slot: String,
    base: SavePath,
    mode: GameMode,
    saved: RuntimePlan,
    exported: RuntimePlan,
    loaded: RuntimePlan,
)
    requires
        planned(RuntimeCommand::Save(slot), base, mode, saved),
        planned(RuntimeCommand::SaveMsav(slot), base, mode, exported),
        planned(RuntimeCommand::Load(slot), base, mode, loaded),
    ensures
        !valid_slot(slot@) ==> saved is InvalidSlot && exported is InvalidSlot && loaded is InvalidSlot,
        valid_slot(slot@) ==> match (saved, exported, loaded) {
            (
                RuntimePlan::SaveTo(a),
                RuntimePlan::ExportTo(b),
                RuntimePlan::LoadFrom(c),
            ) => {
                &&& a@ == c@
                &&& b@ == slot_name(stem_of(base), slot@, "msav"@)
                &&& a@ == slot_name(
                    match base.stem {
                        Some(s) => s@,
                        None => "world-delta"@,
                    },
                    slot@,
                    match base.extension {
                        Some(s) => s@,
                        None => "json"@,
                    },
                )
            },
            _ => false,
        },
{
}

// ---------------------------------------------------------------------------
// Plans.

/// Every other command has a plan of its own kind, which carries what the command says. Who
/// is to be kicked or given a team is looked for in lower case; the next map is hosted in the
/// mode that is played.
pub proof fn law_plans_carry_their_commands(
    command: RuntimeCommand,
    base: SavePath,
    mode: GameMode,
    plan: RuntimePlan,
)
    requires
        planned(command, base, mode, plan),
    ensures
        plan is EmitGameOver <==> command is GameOver,
        plan is Switch <==> command is SetMode,
        plan is Paused <==> command is Pause,
        plan is Host <==> command is HostMap,
        plan is HostNext <==> command is NextMap,
        plan is Assign <==> command is SetTeam,
        plan is Spawn <==> command is SpawnEnemy,
        plan is KickMatching ==> command is Kick,
        plan is Broadcast ==> command is Say,
        command is Kick ==> plan is KickMatching || plan is Unsendable,
        command is Say ==> plan is Broadcast || plan is Unsendable,
        plan is Unsendable ==> command is Kick || command is Say,
        match (command, plan) {
            (RuntimeCommand::Pause(p), RuntimePlan::Paused(q)) => p == q,
            (RuntimeCommand::SetMode { mode: m }, RuntimePlan::Switch { mode: n }) => m == n,
            (RuntimeCommand::Kick(who), RuntimePlan::KickMatching { target, frame }) => target@
                == lowercase_of(who@) && text_frame(
                KICK_PACKET_ID,
                "Kicked by server console"@,
            ) == Ok::<Seq<u8>, crate::codec::CodecError>(frame@),
            (
                RuntimeCommand::SetTeam { player, team },
                RuntimePlan::Assign { target, team: given },
            ) => target@ == lowercase_of(player@) && given == team,
            (
                RuntimeCommand::HostMap { map: asked, mode: m },
                RuntimePlan::Host { map: hosted, mode: n },
            ) => asked == hosted && m == n,
            (RuntimeCommand::NextMap, RuntimePlan::HostNext { mode: m }) => m@ == mode_text(mode),
            (
                RuntimeCommand::SpawnEnemy { unit, count, x, y },
                RuntimePlan::Spawn { unit: u, count: c, x: a, y: b },
            ) => unit == u && count == c && x == a && y == b,
            (RuntimeCommand::Say(text), RuntimePlan::Broadcast(frame)) => text_frame(
                SEND_MESSAGE_PACKET_ID,
                "[accent][Server][] "@ + text@,
            ) == Ok::<Seq<u8>, crate::codec::CodecError>(frame@),
            (RuntimeCommand::Say(text), RuntimePlan::Unsendable) => text_frame(
                SEND_MESSAGE_PACKET_ID,
                "[accent][Server][] "@ + text@,
            ) is Err,
            _ => true,
        },
{
}

/// A mode has one name, and no other text names it.
pub proof fn law_modes_have_one_name(text: Seq<char>, mode: GameMode)
    ensures
        mode_of(text) == Some(mode) <==> text == match mode {
            GameMode::Survival => "survival"@,
            GameMode::Sandbox => "sandbox"@,
            GameMode::Attack => "attack"@,
            GameMode::Pvp => "pvp"@,
        },
        mode_text(mode) == text <==> mode_of(text) == Some(mode),
{
    reveal_strlit("survival");
    reveal_strlit("sandbox");
    reveal_strlit("pvp");
    reveal_strlit("attack");
    assert("survival"@.len() == 8 && "sandbox"@.len() == 7 && "pvp"@.len() == 3 && "attack"@.len()
        == 6);
}

/// A spawn is reported with its number when there was one; in strict mode a unit without
/// data is named as the reason when there was none.
pub proof fn law_spawn_reports(spawned: usize, strict: bool, known: bool)
    ensures
        (spawn_report(spawned, strict, known) matches SpawnReport::Spawned(n)) <==> spawned > 0,
        spawn_report(spawned, strict, known) matches SpawnReport::Spawned(n) ==> n == spawned,
        spawn_report(spawned, strict, known) == SpawnReport::StrictRejected <==> spawned == 0
            && strict && !known,
{
}

// ---------------------------------------------------------------------------
// Kicks.

/// Whether a target in lower case means a connection: by the name of its player, whatever
/// the letters' case, or by its address.
pub open spec fn means_connection(connection: PendingConnection, target: Seq<char>) -> bool {
    ||| connection.player_name matches Some(n) && lowercase_of(n@) == target
    ||| connection.ip@ == target
}

/// A kick means exactly the connections with the player's name or the address, each once.
pub proof fn law_kick_means_name_or_address(
    connections: Map<i32, PendingConnection>,
    keys: Seq<i32>,
    target: Seq<char>,
    id: i32,
)
    requires
        keys.no_duplicates(),
    ensures
        kick_list(connections, keys, target).contains(id) <==> keys.contains(id)
            && means_connection(connections[id], target),
        kick_list(connections, keys, target).no_duplicates(),
{
    let p = |id: i32| kick_meant(connections[id], target);
    lemma_filter_members(keys, p);
    assert(kick_list(connections, keys, target) == keys.filter(p));
    assert(keys.filter(p).contains(id) <==> keys.contains(id) && p(id));
}

/// The first session is found whose name or identity the target gives, in any case of their
/// letters; without such a session there is none.
pub proof fn law_first_session_is_found(
    sessions: Map<i32, SessionPlayer>,
    keys: Seq<i32>,
    target: Seq<char>,
    i: int,
)
    ensures
        0 <= i < keys.len() && means_session(sessions[keys[i]], target) && (forall|j: int|
            0 <= j < i ==> !means_session(sessions[#[trigger] keys[j]], target)) ==> first_meant(
            sessions,
            keys,
            target,
        ) == Some(keys[i]),
        (forall|j: int|
            0 <= j < keys.len() ==> !means_session(sessions[#[trigger] keys[j]], target))
            ==> first_meant(sessions, keys, target) is None,
    decreases keys.len(),
{
    if keys.len() > 0 && !means_session(sessions[keys[0]], target) {
        let rest = keys.skip(1);
        law_first_session_is_found(sessions, rest, target, i - 1);
        if 0 < i < keys.len() && (forall|j: int|
            0 <= j < i ==> !means_session(sessions[#[trigger] keys[j]], target)) {
            assert(rest[i - 1] == keys[i]);
            assert forall|j: int| 0 <= j < i - 1 implies !means_session(
                sessions[#[trigger] rest[j]],
                target,
            ) by {
                assert(rest[j] == keys[j + 1]);
            }
        }
        if forall|j: int|
            0 <= j < keys.len() ==> !means_session(sessions[#[trigger] keys[j]], target) {
            assert forall|j: int| 0 <= j < rest.len() implies !means_session(
                sessions[#[trigger] rest[j]],
                target,
            ) by {
                assert(rest[j] == keys[j + 1]);
            }
        }
    }
}

/// Whether a target in lower case means a session: by its name, whatever the letters' case,
/// or by its identity in any case of its letters.
pub open spec fn means_session(session: SessionPlayer, target: Seq<char>) -> bool {
    lowercase_of(session.name@) == target || ascii_lower_text(session.uuid@) == ascii_lower_text(
        target,
    )
}

/// Whether the effects send the frame to a connection so that it is not dropped.
pub open spec fn shown_out(effects: Seq<EffectView>, connection: i32, frame: Seq<u8>) -> bool {
    exists|i: int|
        0 <= i < effects.len() && #[trigger] effects[i] == (EffectView::Send {
            connection,
            frame,
            critical: true,
        })
}

/// Every connection that a kick means is sent the frame, so that it is not dropped, and no
/// other is. Where the target means a session too, its identity is reported for the address
/// of each, with no time to stay out; nobody else is reported.
pub proof fn law_kick_shows_out_whom_it_means(
    connections: Map<i32, PendingConnection>,
    sessions: Registry<SessionPlayer>,
    ids: Seq<i32>,
    target: Seq<char>,
    frame: Seq<u8>,
)
    ensures
        ({
            let effects = kicks(connections, sessions, ids, target, frame);
            let meant = first_meant(sessions@, sessions.spec_keys(), target);
            &&& forall|id: i32| #[trigger] shown_out(effects, id, frame) <==> ids.contains(id)
            &&& forall|id: i32| #[trigger]
                ids.contains(id) && meant is Some ==> effects.contains(
                    EffectView::Kicked {
                        uuid: sessions@[meant.unwrap()].uuid@,
                        ip: connections[id].ip@,
                        seconds: 0,
                    },
                )
            &&& forall|i: int|
                0 <= i < effects.len() ==> match #[trigger] effects[i] {
                    EffectView::Send { connection, frame: f, critical } => ids.contains(connection)
                        && f == frame && critical,
                    EffectView::Kicked { uuid, ip, seconds } => meant is Some && uuid
                        == sessions@[meant.unwrap()].uuid@ && seconds == 0 && exists|id: i32|
                        #[trigger] ids.contains(id) && connections[id].ip@ == ip,
                }
        }),
    decreases ids.len(),
{
    let effects = kicks(connections, sessions, ids, target, frame);
    let meant = first_meant(sessions@, sessions.spec_keys(), target);
    if ids.len() > 0 {
        let front = ids.drop_last();
        let last = ids.last();
        law_kick_shows_out_whom_it_means(connections, sessions, front, target, frame);
        let before = kicks(connections, sessions, front, target, frame);
        let n = before.len() as int;
        assert(ids[ids.len() - 1] == last);
        assert forall|id: i32| #[trigger] ids.contains(id) <==> front.contains(id) || id
            == last by {
            if ids.contains(id) {
                let i = choose|i: int| 0 <= i < ids.len() && ids[i] == id;
                if i < front.len() {
                    assert(front[i] == id);
                }
            }
            if front.contains(id) {
                let i = choose|i: int| 0 <= i < front.len() && front[i] == id;
                assert(ids[i] == id);
            }
        }
        assert forall|i: int| 0 <= i < n implies effects[i] == before[i] by {}
        assert(effects[n] == (EffectView::Send { connection: last, frame, critical: true }));
        if meant is Some {
            assert(effects.len() == n + 2);
            assert(effects[n + 1] == (EffectView::Kicked {
                uuid: sessions@[meant.unwrap()].uuid@,
                ip: connections[last].ip@,
                seconds: 0,
            }));
        }
        assert forall|id: i32| #[trigger] shown_out(effects, id, frame) <==> ids.contains(id) by {
            assert(shown_out(before, id, frame) <==> front.contains(id));
            if shown_out(before, id, frame) {
                let i = choose|i: int|
                    0 <= i < before.len() && #[trigger] before[i] == (EffectView::Send {
                        connection: id,
                        frame,
                        critical: true,
                    });
                assert(effects[i] == before[i]);
            }
            if shown_out(effects, id, frame) {
                let i = choose|i: int|
                    0 <= i < effects.len() && #[trigger] effects[i] == (EffectView::Send {
                        connection: id,
                        frame,
                        critical: true,
                    });
                if i < n {
                    assert(before[i] == effects[i]);
                }
            }
        }
        assert forall|id: i32| #[trigger] ids.contains(id) && meant is Some implies effects.contains(
            EffectView::Kicked {
                uuid: sessions@[meant.unwrap()].uuid@,
                ip: connections[id].ip@,
                seconds: 0,
            },
        ) by {
            let e = EffectView::Kicked {
                uuid: sessions@[meant.unwrap()].uuid@,
                ip: connections[id].ip@,
                seconds: 0,
            };
            if id == last {
                assert(effects[n + 1] == e);
            } else {
                assert(front.contains(id));
                assert(before.contains(e));
                let i = choose|i: int| 0 <= i < before.len() && before[i] == e;
                assert(effects[i] == e);
            }
        }
        assert forall|i: int| 0 <= i < effects.len() implies match #[trigger] effects[i] {
            EffectView::Send { connection, frame: f, critical } => ids.contains(connection) && f
                == frame && critical,
            EffectView::Kicked { uuid, ip, seconds } => meant is Some && uuid
                == sessions@[meant.unwrap()].uuid@ && seconds == 0 && exists|id: i32| #[trigger]
                ids.contains(id) && connections[id].ip@ == ip,
        } by {
            if i < n {
                assert(effects[i] == before[i]);
                if let EffectView::Kicked { uuid, ip, seconds } = before[i] {
                    let id = choose|id: i32| #[trigger]
                        front.contains(id) && connections[id].ip@ == ip;
                    assert(ids.contains(id));
                }
                if let EffectView::Send { connection, frame: f, critical } = before[i] {
                    assert(front.contains(connection));
                    assert(ids.contains(connection));
                }
            } else {
                assert(ids.contains(last));
            }
        }
    }
}

// ---------------------------------------------------------------------------
// Teams.

/// A player is given a team when the team is known, the target means a session, and that
/// session has a unit in the field. The unit then plays for the team where it stands; no
/// other unit changes, and without success none does.
pub proof fn law_team_is_given(
    sessions: Registry<SessionPlayer>,
    players: Map<i32, PlayerCombat>,
    target: Seq<char>,
    team: Option<u8>,
    other: i32,
)
    ensures
        ({
            let r = assign_result(sessions, players, target, team);
            let after = after_assignment(players, r, team);
            let meant = first_meant(sessions@, sessions.spec_keys(), target);
            let unit = sessions@[meant.unwrap()].unit_id;
            &&& r == Err::<i32, AssignError>(AssignError::UnknownTeam) <==> team is None
            &&& r == Err::<i32, AssignError>(AssignError::NoPlayer) <==> team is Some
                && meant is None
            &&& r == Err::<i32, AssignError>(AssignError::NoUnit) <==> team is Some && meant is Some
                && !players.dom().contains(unit)
            &&& r is Ok <==> team is Some && meant is Some && players.dom().contains(unit)
            &&& r is Ok ==> r == Ok::<i32, AssignError>(unit) && after.dom().contains(unit)
                && after[unit].team == team.unwrap() && after[unit].x == players[unit].x
                && after[unit].y == players[unit].y
            &&& r is Err ==> after == players
            &&& !(r is Ok && other == unit) ==> after.dom().contains(other)
                == players.dom().contains(other) && after[other] == players[other]
        }),
{
}

} // verus!
