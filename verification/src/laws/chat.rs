//! Who is sent what by a chat command, and what becomes of a vote.

use crate::commands::{
    choice_of, command_of, command_outcome, identity_of, kicked_out, of_admin, on_team, reply,
    team_of, to_each, Choice, CommandContext, EffectView, VoteView,
};
use crate::laws::workshop::lemma_filter_members;
use crate::listener::{connection_number, player_number};
use crate::protocol::{KICK_2_PACKET_ID, SEND_MESSAGE_PACKET_ID};
use crate::text::{ascii_lower_text, first_word, joined, lowercase_of, trimmed, words};
use crate::wire::{framed, text_frame, SessionPlayer};
use vstd::prelude::*;

verus! {

/// The players are numbered by their connections, a million further.
pub proof fn law_player_numbers_are_a_million_further(connection: i32)
    ensures
        (player_number(connection) - connection - 1_000_000) % 0x1_0000_0000 == 0,
        (connection_number(connection) - connection + 1_000_000) % 0x1_0000_0000 == 0,
{
}

proof fn lemma_words_differ()
    ensures
        "t"@ != "a"@,
        "t"@ != "adminchat"@,
        "t"@ != "help"@,
        "t"@ != "sync"@,
        "t"@ != "votekick"@,
        "t"@ != "vote"@,
        "teamchat"@ != "a"@,
        "teamchat"@ != "adminchat"@,
        "teamchat"@ != "help"@,
        "teamchat"@ != "sync"@,
        "teamchat"@ != "votekick"@,
        "teamchat"@ != "vote"@,
        "a"@ != "help"@,
        "a"@ != "sync"@,
        "a"@ != "votekick"@,
        "a"@ != "vote"@,
        "adminchat"@ != "help"@,
        "adminchat"@ != "sync"@,
        "adminchat"@ != "votekick"@,
        "adminchat"@ != "vote"@,
        "help"@ != "sync"@,
        "help"@ != "votekick"@,
        "help"@ != "vote"@,
        "sync"@ != "votekick"@,
        "sync"@ != "vote"@,
        "votekick"@ != "vote"@,
{
    reveal_strlit("t");
    reveal_strlit("teamchat");
    reveal_strlit("a");
    reveal_strlit("adminchat");
    reveal_strlit("help");
    reveal_strlit("sync");
    reveal_strlit("votekick");
    reveal_strlit("vote");
    assert("t"@[0] == 't' && "a"@[0] == 'a');
    assert("help"@[0] == 'h' && "sync"@[0] == 's' && "vote"@[0] == 'v' && "votekick"@[0] == 'v');
    assert("teamchat"@[0] == 't' && "adminchat"@[0] == 'a');
    assert("votekick"@.len() == 8 && "vote"@.len() == 4);
}

// ---------------------------------------------------------------------------
// Messages.

/// Whether the effects send this frame to a connection.
pub open spec fn sent(effects: Seq<EffectView>, connection: i32, frame: Seq<u8>) -> bool {
    exists|i: int|
        0 <= i < effects.len() && #[trigger] effects[i] == (EffectView::Send {
            connection,
            frame,
            critical: false,
        })
}

/// Whether the effects do nothing but send this frame, to no connection twice.
pub open spec fn one_frame_each(effects: Seq<EffectView>, frame: Seq<u8>) -> bool {
    &&& forall|i: int|
        0 <= i < effects.len() ==> (#[trigger] effects[i] matches EffectView::Send {
            frame: f,
            critical,
            ..
        } && f == frame && !critical)
    &&& forall|i: int, j: int|
        0 <= i < j < effects.len() ==> effects[i]->connection != effects[j]->connection
}

proof fn lemma_to_each(keys: Seq<i32>, p: spec_fn(i32) -> bool, frame: Seq<u8>)
    requires
        keys.no_duplicates(),
    ensures
        one_frame_each(to_each(keys.filter(p), frame), frame),
        forall|id: i32| #[trigger] sent(to_each(keys.filter(p), frame), id, frame) <==> (
        keys.contains(id) && p(id)),
{
    lemma_filter_members(keys, p);
    let ids = keys.filter(p);
    let effects = to_each(ids, frame);
    assert forall|id: i32| #[trigger] sent(effects, id, frame) <==> (keys.contains(id) && p(
        id,
    )) by {
        assert(ids.contains(id) <==> keys.contains(id) && p(id));
        if ids.contains(id) {
            let i = choose|i: int| 0 <= i < ids.len() && ids[i] == id;
            assert(effects[i] == (EffectView::Send { connection: id, frame, critical: false }));
        }
        if sent(effects, id, frame) {
            let i = choose|i: int|
                0 <= i < effects.len() && #[trigger] effects[i] == (EffectView::Send {
                    connection: id,
                    frame,
                    critical: false,
                });
            assert(ids[i] == id);
        }
    }
    assert forall|i: int, j: int| 0 <= i < j < effects.len() implies effects[i]->connection
        != effects[j]->connection by {
        assert(ids[i] != ids[j]);
    }
}

/// A message to a player goes to the connection of that player and nowhere else, if it is
/// there and the message fits a packet.
pub proof fn law_answer_goes_to_its_player(
    ctx: CommandContext,
    player_id: i32,
    text: Seq<char>,
    connection: i32,
)
    requires
        player_number(connection) == player_id,
    ensures
        ctx.connections@.dom().contains(connection) ==> (text_frame(SEND_MESSAGE_PACKET_ID, text)
            matches Ok(frame) ==> reply(ctx, player_id, text) == seq![
            EffectView::Send { connection, frame, critical: false },
        ]),
        !ctx.connections@.dom().contains(connection) ==> reply(ctx, player_id, text).len() == 0,
        text_frame(SEND_MESSAGE_PACKET_ID, text) is Err ==> reply(ctx, player_id, text).len()
            == 0,
{
}

/// Whether a session of an admin is on this connection.
pub open spec fn admin_session_on(ctx: CommandContext, connection: i32) -> bool {
    exists|key: i32| #[trigger]
        ctx.sessions@.dom().contains(key) && ctx.sessions@[key].admin && ctx.sessions@[key].id
            == player_number(connection)
}

/// What an admin writes to the admins goes to every connection of a session that is an
/// admin, once, and to no other connection. The vote and the clock stay.
pub proof fn law_admin_chat_reaches_the_admins(
    ctx: CommandContext,
    votes: VoteView,
    player: SessionPlayer,
    message: Seq<char>,
    frame: Seq<u8>,
    connection: i32,
)
    requires
        ctx.wf(),
        command_of(message).0 == "a"@ || command_of(message).0 == "adminchat"@,
        player.admin,
        text_frame(
            SEND_MESSAGE_PACKET_ID,
            "[#ffd37e]<A>"@ + " [coral][["@ + player.name@ + "[coral]]:[white] "@ + command_of(
                message,
            ).1,
        ) == Ok::<Seq<u8>, crate::codec::CodecError>(frame),
    ensures
        ({
            let (after, clock, effects) = command_outcome(ctx, votes, player, message);
            &&& after == votes
            &&& clock == player.last_shot
            &&& one_frame_each(effects, frame)
            &&& sent(effects, connection, frame) <==> ctx.connections@.dom().contains(connection)
                && admin_session_on(ctx, connection)
        }),
{
    lemma_words_differ();
    ctx.connections.lemma_keys();
    let keys = ctx.connections.spec_keys();
    lemma_to_each(keys, of_admin(ctx.sessions@), frame);
    let effects = command_outcome(ctx, votes, player, message).2;
    assert(effects == to_each(keys.filter(of_admin(ctx.sessions@)), frame));
    assert(sent(effects, connection, frame) <==> keys.contains(connection) && of_admin(
        ctx.sessions@,
    )(connection));
}

/// Who is no admin does not reach the admins: the only answer goes to the one who wrote.
pub proof fn law_admin_chat_is_for_admins(
    ctx: CommandContext,
    votes: VoteView,
    player: SessionPlayer,
    message: Seq<char>,
)
    requires
        command_of(message).0 == "a"@ || command_of(message).0 == "adminchat"@,
        !player.admin,
    ensures
        command_outcome(ctx, votes, player, message) == (
            votes,
            player.last_shot,
            reply(ctx, player.id, "[scarlet]You must be an admin to use this command."@),
        ),
{
    lemma_words_differ();
}

/// The team that a player plays for, the first where no profile says.
pub open spec fn side_of(ctx: CommandContext, uuid: Seq<char>) -> u8 {
    if ctx.profiles@.dom().contains(uuid) { ctx.profiles@[uuid].team } else { 1 }
}

/// What a player writes to the team goes to every connection whose player has a profile in
/// that team, once, and to no other connection. The vote and the clock stay.
pub proof fn law_team_chat_reaches_the_team(
    ctx: CommandContext,
    votes: VoteView,
    player: SessionPlayer,
    message: Seq<char>,
    frame: Seq<u8>,
    connection: i32,
)
    requires
        ctx.wf(),
        command_of(message).0 == "t"@ || command_of(message).0 == "teamchat"@,
        text_frame(
            SEND_MESSAGE_PACKET_ID,
            "[#2ad4d6]<T>"@ + " [coral][["@ + player.name@ + "[coral]]:[white] "@ + command_of(
                message,
            ).1,
        ) == Ok::<Seq<u8>, crate::codec::CodecError>(frame),
    ensures
        ({
            let (after, clock, effects) = command_outcome(ctx, votes, player, message);
            &&& after == votes
            &&& clock == player.last_shot
            &&& one_frame_each(effects, frame)
            &&& sent(effects, connection, frame) <==> ctx.connections@.dom().contains(connection)
                && exists|uuid: Seq<char>| #[trigger]
                ctx.profiles@.dom().contains(uuid) && ctx.profiles@[uuid].player_id
                    == player_number(connection) && ctx.profiles@[uuid].team == side_of(
                    ctx,
                    player.uuid@,
                )
        }),
{
    lemma_words_differ();
    ctx.connections.lemma_keys();
    let keys = ctx.connections.spec_keys();
    let p = on_team(ctx.profiles@, team_of(ctx.profiles@, player.uuid@));
    lemma_to_each(keys, p, frame);
    let effects = command_outcome(ctx, votes, player, message).2;
    assert(effects == to_each(keys.filter(p), frame));
    assert(sent(effects, connection, frame) <==> keys.contains(connection) && p(connection));
}

/// A line that fits no packet is sent to nobody.
pub proof fn law_long_lines_are_not_sent(
    ctx: CommandContext,
    votes: VoteView,
    player: SessionPlayer,
    message: Seq<char>,
)
    ensures
        ({
            let (command, args) = command_of(message);
            let tail = " [coral][["@ + player.name@ + "[coral]]:[white] "@ + args;
            let effects = command_outcome(ctx, votes, player, message).2;
            &&& (command == "a"@ || command == "adminchat"@) && player.admin && text_frame(
                SEND_MESSAGE_PACKET_ID,
                "[#ffd37e]<A>"@ + tail,
            ) is Err ==> effects.len() == 0
            &&& (command == "t"@ || command == "teamchat"@) && text_frame(
                SEND_MESSAGE_PACKET_ID,
                "[#2ad4d6]<T>"@ + tail,
            ) is Err ==> effects.len() == 0
        }),
{
    lemma_words_differ();
    let (command, args) = command_of(message);
    let tail = " [coral][["@ + player.name@ + "[coral]]:[white] "@ + args;
    assert("[#ffd37e]<A>"@ + tail =~= "[#ffd37e]<A>"@ + " [coral][["@ + player.name@
        + "[coral]]:[white] "@ + args);
    assert("[#2ad4d6]<T>"@ + tail =~= "[#2ad4d6]<T>"@ + " [coral][["@ + player.name@
        + "[coral]]:[white] "@ + args);
}

// ---------------------------------------------------------------------------
// The other commands.

/// Every command but the chats and a vote that passes is answered to the one who wrote it, by
/// at most one message, and to nobody else.
pub proof fn law_commands_answer_the_one_who_wrote(
    ctx: CommandContext,
    votes: VoteView,
    player: SessionPlayer,
    message: Seq<char>,
    i: int,
)
    requires
        !(command_of(message).0 == "t"@ || command_of(message).0 == "teamchat"@),
        !(command_of(message).0 == "a"@ || command_of(message).0 == "adminchat"@),
        !(command_of(message).0 == "vote"@),
    ensures
        ({
            let effects = command_outcome(ctx, votes, player, message).2;
            &&& effects.len() <= 1
            &&& 0 <= i < effects.len() ==> (effects[i] matches EffectView::Send {
                connection,
                critical,
                ..
            } && player_number(connection) == player.id && !critical)
        }),
{
    crate::listener::law_player_numbers(player.id);
}

/// Help and a command that nobody knows change nothing and are answered.
pub proof fn law_help_and_unknown_commands_change_nothing(
    ctx: CommandContext,
    votes: VoteView,
    player: SessionPlayer,
    message: Seq<char>,
)
    requires
        command_of(message).0 != "t"@ && command_of(message).0 != "teamchat"@,
        command_of(message).0 != "a"@ && command_of(message).0 != "adminchat"@,
        command_of(message).0 != "sync"@,
        command_of(message).0 != "vote"@ && command_of(message).0 != "votekick"@,
    ensures
        ({
            let (after, clock, effects) = command_outcome(ctx, votes, player, message);
            let command = command_of(message).0;
            &&& after == votes
            &&& clock == player.last_shot
            &&& command != "help"@ ==> effects == reply(
                ctx,
                player.id,
                "[scarlet]Unknown command '/"@ + command + "'. Use /help."@,
            )
            &&& command == "help"@ ==> effects == reply(
                ctx,
                player.id,
                crate::commands::help_text(),
            )
        }),
{
}

/// A request to synchronise is granted when five seconds have gone by since the last one, and
/// starts them anew; before that it is refused and leaves the clock. The vote stays.
pub proof fn law_sync_every_five_seconds(
    ctx: CommandContext,
    votes: VoteView,
    player: SessionPlayer,
    message: Seq<char>,
)
    requires
        command_of(message).0 == "sync"@,
    ensures
        ({
            let (after, clock, effects) = command_outcome(ctx, votes, player, message);
            &&& after == votes
            &&& ctx.now >= player.last_shot + 5_000_000_000 ==> clock == ctx.now && effects
                == reply(ctx, player.id, "[lightgray]World synchronization requested."@)
            &&& ctx.now < player.last_shot + 5_000_000_000 ==> clock == player.last_shot
                && effects == reply(
                ctx,
                player.id,
                "[scarlet]You may only /sync every 5 seconds."@,
            )
        }),
{
    lemma_words_differ();
}

// ---------------------------------------------------------------------------
// Votes.

/// Whether a player with the name, whatever its letters' case, is on some connection.
pub open spec fn someone_is_called(ctx: CommandContext, name: Seq<char>) -> bool {
    exists|id: i32| #[trigger]
        ctx.connections@.dom().contains(id) && (ctx.connections@[id].player_name matches Some(n)
            && lowercase_of(n@) == lowercase_of(name))
}

/// A vote starts when three players are there, none is running, a player and a reason are
/// named, whoever starts it has not started one in the last five minutes, and the player is
/// there; otherwise nothing changes. A vote that starts is on the named player, has the one
/// voice of whoever started it, and their clock starts. The clocks of others and the one for
/// synchronising stay.
pub proof fn law_vote_starts(
    ctx: CommandContext,
    votes: VoteView,
    player: SessionPlayer,
    message: Seq<char>,
    other: Seq<char>,
)
    requires
        command_of(message).0 == "votekick"@,
    ensures
        ({
            let (target, rest) = first_word(command_of(message).1);
            let (after, clock, effects) = command_outcome(ctx, votes, player, message);
            let may = {
                &&& ctx.connections.spec_keys().len() >= 3
                &&& votes.target is None
                &&& target.len() > 0
                &&& joined(words(rest)).len() > 0
                &&& votes.cooldowns.dom().contains(player.uuid@) ==> ctx.now
                    >= votes.cooldowns[player.uuid@] + 300_000_000_000
                &&& someone_is_called(ctx, target)
            };
            &&& clock == player.last_shot
            &&& !may ==> after == votes
            &&& may ==> after.target == Some(target)
            &&& may ==> after.votes == 1
            &&& may ==> after.voters == Map::<Seq<char>, i32>::empty().insert(player.uuid@, 1i32)
            &&& may ==> after.cooldowns.dom().contains(player.uuid@)
                && after.cooldowns[player.uuid@] == ctx.now
            &&& may && other != player.uuid@ ==> after.cooldowns.dom().contains(other)
                == votes.cooldowns.dom().contains(other) && (votes.cooldowns.dom().contains(other)
                ==> after.cooldowns[other] == votes.cooldowns[other])
        }),
{
    lemma_words_differ();
    let (target, rest) = first_word(command_of(message).1);
    assert(crate::commands::anyone_named(ctx.connections@, lowercase_of(target))
        <==> someone_is_called(ctx, target)) by {
        if someone_is_called(ctx, target) {
            let id = choose|id: i32| #[trigger]
                ctx.connections@.dom().contains(id) && (ctx.connections@[id].player_name matches Some(
                    n,
                ) && lowercase_of(n@) == lowercase_of(target));
            assert(crate::commands::carries(ctx.connections@[id], lowercase_of(target)));
        }
    }
}

/// Who may not start a vote is told why: too few players, a vote that runs, nobody named, no
/// reason, too short a while since the last, or nobody of that name; the first of these that
/// holds. Who may is told the reason and the name.
pub proof fn law_votekick_is_answered(
    ctx: CommandContext,
    votes: VoteView,
    player: SessionPlayer,
    message: Seq<char>,
)
    requires
        command_of(message).0 == "votekick"@,
    ensures
        ({
            let (target, rest) = first_word(command_of(message).1);
            let reason = joined(words(rest));
            let effects = command_outcome(ctx, votes, player, message).2;
            let few = ctx.connections.spec_keys().len() < 3;
            let runs = votes.target is Some;
            let soon = votes.cooldowns.dom().contains(player.uuid@) && ctx.now
                < votes.cooldowns[player.uuid@] + 300_000_000_000;
            effects == reply(
                ctx,
                player.id,
                if few {
                    "[scarlet]At least 3 players are needed to start a votekick."@
                } else if runs {
                    "[scarlet]A vote is already in progress."@
                } else if target.len() == 0 {
                    "[orange]Players to kick: use /votekick <name> <reason>"@
                } else if reason.len() == 0 {
                    "[orange]You need a valid reason to kick the player. Add a reason after the player name."@
                } else if soon {
                    "[scarlet]You must wait 5 minutes between votekicks."@
                } else if !someone_is_called(ctx, target) {
                    "[scarlet]No player [orange]'"@ + target + "'[scarlet] found."@
                } else {
                    "[lightgray]Reason:[orange] "@ + reason
                        + "[lightgray]. Vote started for [orange]"@ + target
                        + "[lightgray]. Type /vote y or /vote n."@
                },
            )
        }),
{
    lemma_words_differ();
    let (target, rest) = first_word(command_of(message).1);
    assert(crate::commands::anyone_named(ctx.connections@, lowercase_of(target))
        <==> someone_is_called(ctx, target)) by {
        if someone_is_called(ctx, target) {
            let id = choose|id: i32| #[trigger]
                ctx.connections@.dom().contains(id) && (ctx.connections@[id].player_name matches Some(
                    n,
                ) && lowercase_of(n@) == lowercase_of(target));
            assert(crate::commands::carries(ctx.connections@[id], lowercase_of(target)));
        }
    }
}

/// A voice is answered to whoever gave it, but for the one that carries the vote, whose
/// answer is the kick, and a yes that does not, which goes without.
pub proof fn law_voices_are_answered(
    ctx: CommandContext,
    votes: VoteView,
    player: SessionPlayer,
    message: Seq<char>,
)
    requires
        command_of(message).0 == "vote"@,
    ensures
        ({
            let effects = command_outcome(ctx, votes, player, message).2;
            let choice = choice_of(command_of(message).1);
            let voted = votes.voters.dom().contains(player.uuid@);
            let enough: int = if ctx.connections.spec_keys().len() > 4 { 3 } else { 2 };
            &&& votes.target is None ==> effects == reply(
                ctx,
                player.id,
                "[scarlet]Nobody is being voted on."@,
            )
            &&& votes.target is Some && choice == Choice::Unknown ==> effects == reply(
                ctx,
                player.id,
                "[scarlet]Vote either 'y' (yes) or 'n' (no)."@,
            )
            &&& votes.target is Some && choice == Choice::Cancel && player.admin ==> effects
                == reply(
                ctx,
                player.id,
                "[lightgray]Vote canceled by admin [orange]"@ + player.name@ + "[lightgray]."@,
            )
            &&& votes.target is Some && choice == Choice::Cancel && !player.admin ==> effects
                == reply(ctx, player.id, "[scarlet]Only admins can cancel the vote."@)
            &&& votes.target is Some && (choice == Choice::Yes || choice == Choice::No) && voted
                ==> effects == reply(
                ctx,
                player.id,
                "[scarlet]You've already voted. Sit down."@,
            )
            &&& votes.target is Some && choice == Choice::No && !voted ==> effects == reply(
                ctx,
                player.id,
                "[lightgray]Vote recorded."@,
            )
            &&& votes.target is Some && choice == Choice::Yes && !voted && votes.votes + 1 < enough
                ==> effects.len() == 0
        }),
{
    lemma_words_differ();
}

/// A player says yes with y or yes, no with n or no, and cancels with c or cancel, whatever
/// the letters' case and the white space around; anything else is none of these.
pub proof fn law_choices(args: Seq<char>)
    ensures
        ({
            let word = ascii_lower_text(trimmed(args));
            &&& choice_of(args) == Choice::Yes <==> word == "y"@ || word == "yes"@
            &&& choice_of(args) == Choice::No <==> word == "n"@ || word == "no"@
            &&& choice_of(args) == Choice::Cancel <==> word == "c"@ || word == "cancel"@
        }),
{
    reveal_strlit("y");
    reveal_strlit("yes");
    reveal_strlit("n");
    reveal_strlit("no");
    reveal_strlit("c");
    reveal_strlit("cancel");
    assert("y"@[0] == 'y' && "yes"@[0] == 'y' && "n"@[0] == 'n' && "no"@[0] == 'n');
    assert("c"@[0] == 'c' && "cancel"@[0] == 'c');
}

/// A first voice counts one for yes and one against for no, and is remembered; a voice of
/// who has voted counts nothing. An admin ends the vote by cancelling it. Anything else, and
/// a voice while nobody is voted on, changes nothing.
pub proof fn law_voices_count_once(
    ctx: CommandContext,
    votes: VoteView,
    player: SessionPlayer,
    message: Seq<char>,
    other: Seq<char>,
)
    requires
        command_of(message).0 == "vote"@,
    ensures
        ({
            let (after, clock, effects) = command_outcome(ctx, votes, player, message);
            let choice = choice_of(command_of(message).1);
            let voted = votes.voters.dom().contains(player.uuid@);
            let enough: int = if ctx.connections.spec_keys().len() > 4 { 3 } else { 2 };
            let over = after.target is None && after.votes == 0 && after.voters == Map::<
                Seq<char>,
                i32,
            >::empty();
            &&& clock == player.last_shot
            &&& after.cooldowns == votes.cooldowns
            &&& votes.target is None ==> after == votes
            &&& votes.target is Some && choice == Choice::Unknown ==> after == votes
            &&& votes.target is Some && choice == Choice::Cancel && !player.admin ==> after
                == votes
            &&& votes.target is Some && choice == Choice::Cancel && player.admin ==> over
            &&& votes.target is Some && choice == Choice::Yes && !voted && votes.votes + 1
                >= enough ==> over
            &&& votes.target is Some && choice == Choice::Yes && !voted && votes.votes + 1
                < enough ==> after.target == votes.target && after.votes == votes.votes + 1
            &&& votes.target is Some && choice == Choice::No && !voted ==> after.target
                == votes.target && after.votes == votes.votes - 1
            &&& votes.target is Some && (choice == Choice::Yes || choice == Choice::No) && voted
                ==> after.target == votes.target && after.votes == votes.votes
            &&& votes.target is Some && (choice == Choice::Yes || choice == Choice::No)
                && after.target is Some ==> after.voters.dom().contains(player.uuid@)
                && after.voters[player.uuid@] == if choice == Choice::Yes { 1i32 } else { -1i32 }
            &&& after.target is Some && other != player.uuid@ ==> after.voters.dom().contains(
                other,
            ) == votes.voters.dom().contains(other)
        }),
{
    lemma_words_differ();
}

/// Whether the player of a connection has the name, whatever its letters' case.
pub open spec fn called(ctx: CommandContext, id: i32, name: Seq<char>) -> bool {
    ctx.connections@[id].player_name matches Some(n) && lowercase_of(n@) == lowercase_of(name)
}

/// Whether the effects tell a connection to go, by the frame for a vote.
pub open spec fn told_to_go(effects: Seq<EffectView>, connection: i32) -> bool {
    exists|i: int|
        0 <= i < effects.len() && #[trigger] effects[i] == (EffectView::Send {
            connection,
            frame: framed(KICK_2_PACKET_ID, seq![11u8])->Ok_0,
            critical: true,
        })
}

/// Whether the effects keep an identity out, from an address, for an hour.
pub open spec fn kept_out(effects: Seq<EffectView>, uuid: Seq<char>, ip: Seq<char>) -> bool {
    exists|i: int|
        0 <= i < effects.len() && #[trigger] effects[i] == (EffectView::Kicked {
            uuid,
            ip,
            seconds: 3600,
        })
}

proof fn lemma_kicked_out(ctx: CommandContext, keys: Seq<i32>, name: Seq<char>)
    ensures
        ({
            let effects = kicked_out(ctx, keys, lowercase_of(name));
            let known = identity_of(ctx.sessions@, ctx.sessions.spec_keys(), lowercase_of(name));
            &&& forall|id: i32| #[trigger] told_to_go(effects, id) <==> keys.contains(id)
                && called(ctx, id, name)
            &&& forall|id: i32|
                #[trigger] keys.contains(id) && called(ctx, id, name) && known is Some
                    ==> kept_out(effects, known.unwrap(), ctx.connections@[id].ip@)
            &&& forall|i: int|
                0 <= i < effects.len() ==> match #[trigger] effects[i] {
                    EffectView::Send { connection, .. } => told_to_go(effects, connection),
                    EffectView::Kicked { uuid, ip, seconds } => {
                        &&& seconds == 3600
                        &&& known == Some(uuid)
                        &&& exists|id: i32| #[trigger]
                            keys.contains(id) && called(ctx, id, name)
                                && ctx.connections@[id].ip@ == ip
                    },
                }
        }),
    decreases keys.len(),
{
    let lower = lowercase_of(name);
    let effects = kicked_out(ctx, keys, lower);
    let known = identity_of(ctx.sessions@, ctx.sessions.spec_keys(), lower);
    if keys.len() > 0 {
        let front = keys.drop_last();
        let last = keys.last();
        lemma_kicked_out(ctx, front, name);
        let before = kicked_out(ctx, front, lower);
        assert(keys[keys.len() - 1] == last);
        assert forall|id: i32| #[trigger] keys.contains(id) <==> front.contains(id) || id
            == last by {
            if keys.contains(id) {
                let i = choose|i: int| 0 <= i < keys.len() && keys[i] == id;
                if i < front.len() {
                    assert(front[i] == id);
                }
            }
            if front.contains(id) {
                let i = choose|i: int| 0 <= i < front.len() && front[i] == id;
                assert(keys[i] == id);
            }
        }
        assert(effects.len() >= before.len());
        assert forall|i: int| 0 <= i < before.len() implies effects[i] == before[i] by {}
        assert forall|id: i32| #[trigger] told_to_go(effects, id) <==> keys.contains(id)
            && called(ctx, id, name) by {
            assert(keys.contains(id) <==> front.contains(id) || id == last);
            if told_to_go(before, id) {
                let i = choose|i: int|
                    0 <= i < before.len() && #[trigger] before[i] == (EffectView::Send {
                        connection: id,
                        frame: framed(KICK_2_PACKET_ID, seq![11u8])->Ok_0,
                        critical: true,
                    });
                assert(effects[i] == before[i]);
            }
            if id == last && called(ctx, id, name) {
                assert(effects[before.len() as int] is Send);
            }
            if told_to_go(effects, id) {
                let i = choose|i: int|
                    0 <= i < effects.len() && #[trigger] effects[i] == (EffectView::Send {
                        connection: id,
                        frame: framed(KICK_2_PACKET_ID, seq![11u8])->Ok_0,
                        critical: true,
                    });
                if i < before.len() {
                    assert(before[i] == effects[i]);
                    assert(told_to_go(before, id));
                }
            }
        }
        assert forall|id: i32|
            #[trigger] keys.contains(id) && called(ctx, id, name) && known is Some
                implies kept_out(effects, known.unwrap(), ctx.connections@[id].ip@) by {
            let uuid = known.unwrap();
            let ip = ctx.connections@[id].ip@;
            if id == last {
                assert(effects[before.len() as int + 1] == (EffectView::Kicked {
                    uuid,
                    ip,
                    seconds: 3600,
                }));
            } else {
                assert(front.contains(id));
                assert(kept_out(before, uuid, ip));
                let i = choose|i: int|
                    0 <= i < before.len() && #[trigger] before[i] == (EffectView::Kicked {
                        uuid,
                        ip,
                        seconds: 3600,
                    });
                assert(effects[i] == before[i]);
            }
        }
        assert forall|i: int| 0 <= i < effects.len() implies match #[trigger] effects[i] {
            EffectView::Send { connection, .. } => told_to_go(effects, connection),
            EffectView::Kicked { uuid, ip, seconds } => {
                &&& seconds == 3600
                &&& known == Some(uuid)
                &&& exists|id: i32| #[trigger]
                    keys.contains(id) && called(ctx, id, name) && ctx.connections@[id].ip@ == ip
            },
        } by {
            if i < before.len() {
                assert(effects[i] == before[i]);
                match before[i] {
                    EffectView::Send { connection, .. } => {
                        assert(told_to_go(before, connection));
                        assert(keys.contains(connection));
                    },
                    EffectView::Kicked { uuid, ip, seconds } => {
                        let id = choose|id: i32| #[trigger]
                            front.contains(id) && called(ctx, id, name)
                                && ctx.connections@[id].ip@ == ip;
                        assert(keys.contains(id));
                    },
                }
            } else {
                assert(called(ctx, last, name));
                assert(keys.contains(last));
            }
        }
    }
}

/// The identity that goes with a name is that of the first session with that name, whatever
/// its letters' case; without such a session there is none.
pub proof fn law_identity_is_that_of_the_first(
    sessions: Map<i32, SessionPlayer>,
    keys: Seq<i32>,
    name: Seq<char>,
    i: int,
)
    ensures
        0 <= i < keys.len() && lowercase_of(sessions[keys[i]].name@) == lowercase_of(name) && (
        forall|j: int|
            0 <= j < i ==> lowercase_of(sessions[#[trigger] keys[j]].name@) != lowercase_of(name))
            ==> identity_of(sessions, keys, lowercase_of(name)) == Some(sessions[keys[i]].uuid@),
        (forall|j: int|
            0 <= j < keys.len() ==> lowercase_of(sessions[#[trigger] keys[j]].name@)
                != lowercase_of(name)) ==> identity_of(
            sessions,
            keys,
            lowercase_of(name),
        ) is None,
    decreases keys.len(),
{
    let lower = lowercase_of(name);
    if keys.len() > 0 && lowercase_of(sessions[keys[0]].name@) != lower {
        let rest = keys.skip(1);
        law_identity_is_that_of_the_first(sessions, rest, name, i - 1);
        assert forall|j: int| 0 <= j < rest.len() implies rest[j] == #[trigger] keys[j + 1] by {}
        if 0 < i < keys.len() && (forall|j: int|
            0 <= j < i ==> lowercase_of(sessions[#[trigger] keys[j]].name@) != lower) {
            assert(rest[i - 1] == keys[i]);
            assert forall|j: int| 0 <= j < i - 1 implies lowercase_of(
                sessions[#[trigger] rest[j]].name@,
            ) != lower by {
                assert(rest[j] == keys[j + 1]);
            }
        }
        if forall|j: int|
            0 <= j < keys.len() ==> lowercase_of(sessions[#[trigger] keys[j]].name@) != lower {
            assert forall|j: int| 0 <= j < rest.len() implies lowercase_of(
                sessions[#[trigger] rest[j]].name@,
            ) != lower by {
                assert(rest[j] == keys[j + 1]);
            }
        }
    }
}

/// The voice that carries a vote sends every connection of the named player away, by the
/// frame for a vote and so that it is not dropped, and no other connection. Where the
/// player's identity is known, it is kept out for an hour from the address of each.
pub proof fn law_passed_vote_sends_the_player_away(
    ctx: CommandContext,
    votes: VoteView,
    player: SessionPlayer,
    message: Seq<char>,
    name: Seq<char>,
    connection: i32,
    i: int,
)
    requires
        ctx.wf(),
        command_of(message).0 == "vote"@,
        choice_of(command_of(message).1) == Choice::Yes,
        votes.target == Some(name),
        !votes.voters.dom().contains(player.uuid@),
        votes.votes + 1 >= if ctx.connections.spec_keys().len() > 4 { 3int } else { 2int },
    ensures
        ({
            let effects = command_outcome(ctx, votes, player, message).2;
            let known = identity_of(ctx.sessions@, ctx.sessions.spec_keys(), lowercase_of(name));
            let named = ctx.connections@.dom().contains(connection) && called(
                ctx,
                connection,
                name,
            );
            &&& told_to_go(effects, connection) <==> named
            &&& named && known is Some ==> kept_out(
                effects,
                known.unwrap(),
                ctx.connections@[connection].ip@,
            )
            &&& 0 <= i < effects.len() ==> match effects[i] {
                EffectView::Send { connection: c, .. } => told_to_go(effects, c),
                EffectView::Kicked { uuid, ip, seconds } => {
                    &&& seconds == 3600
                    &&& known == Some(uuid)
                    &&& exists|id: i32| #[trigger]
                        ctx.connections@.dom().contains(id) && called(ctx, id, name)
                            && ctx.connections@[id].ip@ == ip
                },
            }
        }),
{
    lemma_words_differ();
    ctx.connections.lemma_keys();
    let keys = ctx.connections.spec_keys();
    lemma_kicked_out(ctx, keys, name);
    let effects = command_outcome(ctx, votes, player, message).2;
    assert(effects == kicked_out(ctx, keys, lowercase_of(name)));
    assert(keys.contains(connection) <==> ctx.connections@.dom().contains(connection));
    assert(told_to_go(effects, connection) <==> keys.contains(connection) && called(
        ctx,
        connection,
        name,
    ));
    if 0 <= i < effects.len() {
        if let EffectView::Kicked { uuid, ip, seconds } = effects[i] {
            let id = choose|id: i32| #[trigger]
                keys.contains(id) && called(ctx, id, name) && ctx.connections@[id].ip@ == ip;
            assert(ctx.connections@.dom().contains(id));
        }
    }
}

} // verus!
