//! Chat commands of players: team and admin chat, help, sync, and votes to kick.
//!
//! A command changes the state of the vote and the player's clock, and yields what is to be
//! sent to whom.

use crate::listener::{connection_id_of, connection_number, player_id_of, player_number};
use crate::outbound::PendingConnection;
use crate::protocol::{KICK_2_PACKET_ID, SEND_MESSAGE_PACKET_ID};
use crate::registry::{NamedRegistry, Registry};
use crate::text::{
    ascii_lower_text, first_word, join_words, joined, lowercase_of, split_at_char,
    split_first_word, split_once, text_eq, to_ascii_lowercase, to_lowercase, trim, trimmed, words,
};
use crate::wire::{
    elapsed, encode_text_frame, framed, kick_reason_frame, text_frame, time_since, SessionPlayer,
};
use vstd::prelude::*;
use vstd::string::*;

verus! {

/// How long a player waits between two requests to synchronise, in nanoseconds.
pub const SYNC_COOLDOWN: u64 = 5_000_000_000;

/// How long a player waits between two votes that they start, in nanoseconds.
pub const VOTE_COOLDOWN: u64 = 300_000_000_000;

/// How long a player who was voted out stays out, in seconds.
pub const VOTE_KICK_SECONDS: u64 = 3600;

/// The kick reason of a vote.
pub const VOTE_REASON: u8 = 11;

// ---------------------------------------------------------------------------
// State.

/// A running vote, who voted what, and when players last started one.
pub struct VoteState {
    pub target: Option<String>,
    pub votes: i32,
    pub voters: NamedRegistry<i32>,
    pub cooldowns: NamedRegistry<u64>,
}

/// The contents of a [`VoteState`].
#[verifier::ext_equal]
pub struct VoteView {
    pub target: Option<Seq<char>>,
    pub votes: int,
    pub voters: Map<Seq<char>, i32>,
    pub cooldowns: Map<Seq<char>, u64>,
}

impl View for VoteState {
    type V = VoteView;

    open spec fn view(&self) -> VoteView {
        VoteView {
            target: match self.target {
                Some(t) => Some(t@),
                None => None,
            },
            votes: self.votes as int,
            voters: self.voters@,
            cooldowns: self.cooldowns@,
        }
    }
}

impl VoteView {
    /// Nobody's vote counts more than once.
    pub open spec fn wf(self) -> bool {
        &&& self.voters.dom().finite()
        &&& -self.voters.dom().len() <= self.votes <= self.voters.dom().len()
    }

    /// The vote after it ended.
    pub open spec fn ended(self) -> VoteView {
        VoteView { target: None, votes: 0, voters: Map::empty(), ..self }
    }
}

impl VoteState {
    /// The registries are in order, and nobody's vote counts more than once.
    pub open spec fn wf(&self) -> bool {
        self.voters.wf() && self.cooldowns.wf() && self@.wf()
    }

    pub fn new() -> (r: VoteState)
        ensures
            r@ == (VoteView {
                target: None,
                votes: 0,
                voters: Map::empty(),
                cooldowns: Map::empty(),
            }),
            r.wf(),
    {
        VoteState {
            target: None,
            votes: 0,
            voters: NamedRegistry::new(),
            cooldowns: NamedRegistry::new(),
        }
    }

    fn end(&mut self)
        requires
            old(self).wf(),
        ensures
            final(self).wf(),
            final(self)@ == old(self)@.ended(),
    {
        let ghost before = self@;
        self.target = None;
        self.votes = 0;
        self.voters = NamedRegistry::new();
        assert(self@ =~= before.ended());
    }
}

/// A known player: player number and team. Profiles are kept by identity.
pub struct PlayerProfile {
    pub player_id: i32,
    pub team: u8,
}

/// What a command looks at.
pub struct CommandContext<'a> {
    pub connections: &'a Registry<PendingConnection>,
    pub sessions: &'a Registry<SessionPlayer>,
    pub profiles: &'a NamedRegistry<PlayerProfile>,
    /// Nanoseconds of the server's clock.
    pub now: u64,
}

impl<'a> CommandContext<'a> {
    pub open spec fn wf(&self) -> bool {
        self.connections.wf() && self.sessions.wf() && self.profiles.wf()
    }
}

/// What is to be done after a command.
pub enum Effect {
    Send { connection: i32, frame: Vec<u8>, critical: bool },
    /// Keep a kicked player out for a while.
    Kicked { uuid: String, ip: String, seconds: u64 },
}

/// The contents of an [`Effect`].
pub enum EffectView {
    Send { connection: i32, frame: Seq<u8>, critical: bool },
    Kicked { uuid: Seq<char>, ip: Seq<char>, seconds: u64 },
}

impl View for Effect {
    type V = EffectView;

    open spec fn view(&self) -> EffectView {
        match self {
            Effect::Send { connection, frame, critical } => EffectView::Send {
                connection: *connection,
                frame: frame@,
                critical: *critical,
            },
            Effect::Kicked { uuid, ip, seconds } => EffectView::Kicked {
                uuid: uuid@,
                ip: ip@,
                seconds: *seconds,
            },
        }
    }
}

pub open spec fn effects_of(list: Seq<Effect>) -> Seq<EffectView> {
    Seq::new(list.len(), |i: int| list[i]@)
}

// ---------------------------------------------------------------------------
// Messages.

/// A message to one player: it goes out where it fits a packet and the player's connection
/// is there.
pub open spec fn reply(ctx: CommandContext, player_id: i32, text: Seq<char>) -> Seq<EffectView> {
    match text_frame(SEND_MESSAGE_PACKET_ID, text) {
        Ok(frame) => if ctx.connections@.dom().contains(connection_number(player_id)) {
            seq![
                EffectView::Send {
                    connection: connection_number(player_id),
                    frame,
                    critical: false,
                },
            ]
        } else {
            Seq::empty()
        },
        Err(_) => Seq::empty(),
    }
}

/// A message to one player.
pub fn send_message_to_player(ctx: &CommandContext, player_id: i32, message: &str) -> (r: Vec<
    Effect,
>)
    requires
        ctx.wf(),
    ensures
        effects_of(r@) == reply(*ctx, player_id, message@),
{
    let mut r: Vec<Effect> = Vec::new();
    match encode_text_frame(SEND_MESSAGE_PACKET_ID, message) {
        Ok(frame) => {
            let connection: i32 = connection_id_of(player_id);
            if ctx.connections.contains_key(connection) {
                r.push(Effect::Send { connection, frame, critical: false });
            }
        },
        Err(_) => {},
    }
    assert(effects_of(r@) =~= reply(*ctx, player_id, message@));
    r
}

/// The same frame to each of the connections.
pub open spec fn to_each(ids: Seq<i32>, frame: Seq<u8>) -> Seq<EffectView> {
    Seq::new(
        ids.len(),
        |i: int| EffectView::Send { connection: ids[i], frame, critical: false },
    )
}

fn send_to_each(ids: &Vec<i32>, frame: &Vec<u8>) -> (r: Vec<Effect>)
    ensures
        effects_of(r@) == to_each(ids@, frame@),
{
    let mut r: Vec<Effect> = Vec::new();
    let mut i: usize = 0;
    while i < ids.len()
        invariant
            i <= ids@.len(),
            r@.len() == i,
            effects_of(r@) == to_each(ids@, frame@).take(i as int),
        decreases ids@.len() - i,
    {
        let copy = crate::codec::slice_to_vec(frame.as_slice());
        r.push(Effect::Send { connection: ids[i], frame: copy, critical: false });
        i += 1;
        assert(effects_of(r@) =~= to_each(ids@, frame@).take(i as int));
    }
    assert(effects_of(r@) =~= to_each(ids@, frame@));
    r
}

// ---------------------------------------------------------------------------
// Team and admin chat.

/// The team of the profile with an identity, and the first team without one.
pub open spec fn team_of(profiles: Map<Seq<char>, PlayerProfile>, uuid: Seq<char>) -> u8 {
    if profiles.dom().contains(uuid) { profiles[uuid].team } else { 1 }
}

fn find_team(profiles: &NamedRegistry<PlayerProfile>, uuid: &str) -> (r: u8)
    requires
        profiles.wf(),
    ensures
        r == team_of(profiles@, uuid@),
{
    match profiles.get(uuid) {
        Some(profile) => profile.team,
        None => 1,
    }
}

/// Whether a player number plays for a team.
pub open spec fn plays_for(
    profiles: Map<Seq<char>, PlayerProfile>,
    player_id: i32,
    team: u8,
) -> bool {
    exists|uuid: Seq<char>|
        {
            &&& #[trigger] profiles.dom().contains(uuid)
            &&& profiles[uuid].player_id == player_id
            &&& profiles[uuid].team == team
        }
}

fn is_on_team(profiles: &NamedRegistry<PlayerProfile>, player_id: i32, team: u8) -> (r: bool)
    requires
        profiles.wf(),
    ensures
        r == plays_for(profiles@, player_id, team),
{
    let n: usize = profiles.len();
    let ghost names = profiles.spec_names();
    let mut i: usize = 0;
    while i < n
        invariant
            profiles.wf(),
            names == profiles.spec_names(),
            n == names.len(),
            i <= n,
            forall|j: int| #![trigger names[j]]
                0 <= j < i ==> !(profiles@[names[j]].player_id == player_id
                    && profiles@[names[j]].team == team),
        decreases n - i,
    {
        let profile = profiles.value_at(i);
        if profile.player_id == player_id && profile.team == team {
            assert(profiles@.dom().contains(names[i as int]));
            return true;
        }
        i += 1;
    }
    proof {
        profiles.lemma_names();
        assert forall|uuid: Seq<char>| #[trigger] profiles@.dom().contains(uuid) implies !(
        profiles@[uuid].player_id == player_id && profiles@[uuid].team == team) by {
            assert(names.contains(uuid));
            let j = choose|j: int| 0 <= j < names.len() && names[j] == uuid;
            assert(names[j] == uuid);
        }
    }
    false
}

/// The connections of a team.
pub open spec fn on_team(profiles: Map<Seq<char>, PlayerProfile>, team: u8) -> spec_fn(
    i32,
) -> bool {
    |id: i32| plays_for(profiles, player_number(id), team)
}

fn team_connections(ctx: &CommandContext, team: u8) -> (r: Vec<i32>)
    requires
        ctx.wf(),
    ensures
        r@ == ctx.connections.spec_keys().filter(on_team(ctx.profiles@, team)),
{
    let keys = ctx.connections.keys();
    let ghost picked = on_team(ctx.profiles@, team);
    let mut r: Vec<i32> = Vec::new();
    let mut i: usize = 0;
    proof {
        reveal(Seq::filter);
        assert(keys@.take(0).filter(picked) =~= Seq::empty());
    }
    while i < keys.len()
        invariant
            ctx.wf(),
            i <= keys@.len(),
            picked == on_team(ctx.profiles@, team),
            r@ == keys@.take(i as int).filter(picked),
        decreases keys@.len() - i,
    {
        proof {
            reveal(Seq::filter);
            assert(keys@.take(i + 1).drop_last() =~= keys@.take(i as int));
        }
        if is_on_team(ctx.profiles, player_id_of(keys[i]), team) {
            r.push(keys[i]);
        }
        i += 1;
    }
    assert(keys@.take(i as int) =~= keys@);
    r
}

/// Whether a player number belongs to an admin.
pub open spec fn is_admin(sessions: Map<i32, SessionPlayer>, player_id: i32) -> bool {
    exists|key: i32| #[trigger]
        sessions.dom().contains(key) && sessions[key].id == player_id && sessions[key].admin
}

fn has_admin_session(sessions: &Registry<SessionPlayer>, player_id: i32) -> (r: bool)
    requires
        sessions.wf(),
    ensures
        r == is_admin(sessions@, player_id),
{
    let keys = sessions.keys();
    let mut i: usize = 0;
    while i < keys.len()
        invariant
            sessions.wf(),
            i <= keys@.len(),
            forall|key: i32| keys@.contains(key) <==> sessions@.dom().contains(key),
            forall|j: int|
                0 <= j < i ==> !(sessions@[#[trigger] keys@[j]].id == player_id
                    && sessions@[keys@[j]].admin),
        decreases keys@.len() - i,
    {
        assert(keys@.contains(keys@[i as int]));
        match sessions.get(keys[i]) {
            Some(session) => {
                if session.id == player_id && session.admin {
                    assert(sessions@.dom().contains(keys@[i as int]));
                    return true;
                }
            },
            None => {},
        }
        i += 1;
    }
    assert forall|key: i32| sessions@.dom().contains(key) implies !(sessions@[key].id == player_id
        && sessions@[key].admin) by {
        assert(keys@.contains(key));
        let j = choose|j: int| 0 <= j < keys@.len() && keys@[j] == key;
        assert(keys@[j] == key);
    }
    false
}

/// The connections of admins.
pub open spec fn of_admin(sessions: Map<i32, SessionPlayer>) -> spec_fn(i32) -> bool {
    |id: i32| is_admin(sessions, player_number(id))
}

fn admin_connections(ctx: &CommandContext) -> (r: Vec<i32>)
    requires
        ctx.wf(),
    ensures
        r@ == ctx.connections.spec_keys().filter(of_admin(ctx.sessions@)),
{
    let keys = ctx.connections.keys();
    let ghost picked = of_admin(ctx.sessions@);
    let mut r: Vec<i32> = Vec::new();
    let mut i: usize = 0;
    proof {
        reveal(Seq::filter);
        assert(keys@.take(0).filter(picked) =~= Seq::empty());
    }
    while i < keys.len()
        invariant
            ctx.wf(),
            i <= keys@.len(),
            picked == of_admin(ctx.sessions@),
            r@ == keys@.take(i as int).filter(picked),
        decreases keys@.len() - i,
    {
        proof {
            reveal(Seq::filter);
            assert(keys@.take(i + 1).drop_last() =~= keys@.take(i as int));
        }
        if has_admin_session(ctx.sessions, player_id_of(keys[i])) {
            r.push(keys[i]);
        }
        i += 1;
    }
    assert(keys@.take(i as int) =~= keys@);
    r
}

/// A line of a channel, with its mark.
pub open spec fn channel_line(mark: Seq<char>, name: Seq<char>, text: Seq<char>) -> Seq<char> {
    mark + " [coral][["@ + name + "[coral]]:[white] "@ + text
}

fn format_channel_line(mark: &str, name: &str, text: &str) -> (r: String)
    ensures
        r@ == channel_line(mark@, name@, text@),
{
    let mut line = mark.to_owned();
    line.append(" [coral][[");
    line.append(name);
    line.append("[coral]]:[white] ");
    line.append(text);
    line
}

/// Team chat goes to every connection whose player plays for the sender's team.
pub open spec fn team_chat(ctx: CommandContext, player: SessionPlayer, args: Seq<char>) -> Seq<
    EffectView,
> {
    match text_frame(
        SEND_MESSAGE_PACKET_ID,
        channel_line("[#2ad4d6]<T>"@, player.name@, args),
    ) {
        Ok(frame) => to_each(
            ctx.connections.spec_keys().filter(
                on_team(ctx.profiles@, team_of(ctx.profiles@, player.uuid@)),
            ),
            frame,
        ),
        Err(_) => Seq::empty(),
    }
}

fn run_team_chat(ctx: &CommandContext, player: &SessionPlayer, args: &str) -> (r: Vec<Effect>)
    requires
        ctx.wf(),
    ensures
        effects_of(r@) == team_chat(*ctx, *player, args@),
{
    let line = format_channel_line("[#2ad4d6]<T>", player.name.as_str(), args);
    match encode_text_frame(SEND_MESSAGE_PACKET_ID, line.as_str()) {
        Ok(frame) => {
            let team: u8 = find_team(ctx.profiles, player.uuid.as_str());
            let ids = team_connections(ctx, team);
            send_to_each(&ids, &frame)
        },
        Err(_) => {
            let r: Vec<Effect> = Vec::new();
            assert(effects_of(r@) =~= Seq::empty());
            r
        },
    }
}

/// Admin chat goes from admins to the connections of admins.
pub open spec fn admin_chat(ctx: CommandContext, player: SessionPlayer, args: Seq<char>) -> Seq<
    EffectView,
> {
    if !player.admin {
        reply(ctx, player.id, "[scarlet]You must be an admin to use this command."@)
    } else {
        match text_frame(
            SEND_MESSAGE_PACKET_ID,
            channel_line("[#ffd37e]<A>"@, player.name@, args),
        ) {
            Ok(frame) => to_each(
                ctx.connections.spec_keys().filter(of_admin(ctx.sessions@)),
                frame,
            ),
            Err(_) => Seq::empty(),
        }
    }
}

fn run_admin_chat(ctx: &CommandContext, player: &SessionPlayer, args: &str) -> (r: Vec<Effect>)
    requires
        ctx.wf(),
    ensures
        effects_of(r@) == admin_chat(*ctx, *player, args@),
{
    if !player.admin {
        return send_message_to_player(
            ctx,
            player.id,
            "[scarlet]You must be an admin to use this command.",
        );
    }
    let line = format_channel_line("[#ffd37e]<A>", player.name.as_str(), args);
    match encode_text_frame(SEND_MESSAGE_PACKET_ID, line.as_str()) {
        Ok(frame) => {
            let ids = admin_connections(ctx);
            send_to_each(&ids, &frame)
        },
        Err(_) => {
            let r: Vec<Effect> = Vec::new();
            assert(effects_of(r@) =~= Seq::empty());
            r
        },
    }
}

// ---------------------------------------------------------------------------
// Starting a vote.

/// Whether a connection carries a player with this lower-case name.
pub open spec fn carries(connection: PendingConnection, lower: Seq<char>) -> bool {
    connection.player_name matches Some(name) && lowercase_of(name@) == lower
}

/// Whether some connection carries a player with this lower-case name.
pub open spec fn anyone_named(connections: Map<i32, PendingConnection>, lower: Seq<char>) -> bool {
    exists|id: i32| #[trigger] connections.dom().contains(id) && carries(connections[id], lower)
}

fn is_carried(connection: &PendingConnection, lower: &str) -> (r: bool)
    ensures
        r == carries(*connection, lower@),
{
    match &connection.player_name {
        Some(name) => {
            let own = to_lowercase(name.as_str());
            text_eq(own.as_str(), lower)
        },
        None => false,
    }
}

fn has_player_named(connections: &Registry<PendingConnection>, lower: &str) -> (r: bool)
    requires
        connections.wf(),
    ensures
        r == anyone_named(connections@, lower@),
{
    let keys = connections.keys();
    let mut i: usize = 0;
    while i < keys.len()
        invariant
            connections.wf(),
            i <= keys@.len(),
            forall|key: i32| keys@.contains(key) <==> connections@.dom().contains(key),
            forall|j: int| 0 <= j < i ==> !carries(connections@[#[trigger] keys@[j]], lower@),
        decreases keys@.len() - i,
    {
        assert(keys@.contains(keys@[i as int]));
        match connections.get(keys[i]) {
            Some(connection) => {
                if is_carried(connection, lower) {
                    assert(connections@.dom().contains(keys@[i as int]));
                    return true;
                }
            },
            None => {},
        }
        i += 1;
    }
    assert forall|id: i32| connections@.dom().contains(id) implies !carries(
        connections@[id],
        lower@,
    ) by {
        assert(keys@.contains(id));
        let j = choose|j: int| 0 <= j < keys@.len() && keys@[j] == id;
        assert(keys@[j] == id);
    }
    false
}

/// Whether a player started a vote too short a while ago.
pub open spec fn on_cooldown(votes: VoteView, uuid: Seq<char>, now: u64) -> bool {
    votes.cooldowns.dom().contains(uuid) && elapsed(votes.cooldowns[uuid], now) < VOTE_COOLDOWN
}

/// Why a vote is not started.
#[derive(Clone, Copy, Debug, PartialEq, Eq, Structural)]
pub enum VotekickRefusal {
    TooFewPlayers,
    AlreadyRunning,
    NoTarget,
    NoReason,
    Cooldown,
    UnknownTarget,
}

/// Why a vote is not started, the first reason that holds.
pub open spec fn votekick_refusal(
    ctx: CommandContext,
    votes: VoteView,
    player: SessionPlayer,
    args: Seq<char>,
) -> Option<VotekickRefusal> {
    let (target, rest) = first_word(args);
    let reason = joined(words(rest));
    if ctx.connections.spec_keys().len() < 3 {
        Some(VotekickRefusal::TooFewPlayers)
    } else if votes.target is Some {
        Some(VotekickRefusal::AlreadyRunning)
    } else if target.len() == 0 {
        Some(VotekickRefusal::NoTarget)
    } else if reason.len() == 0 {
        Some(VotekickRefusal::NoReason)
    } else if on_cooldown(votes, player.uuid@, ctx.now) {
        Some(VotekickRefusal::Cooldown)
    } else if !anyone_named(ctx.connections@, lowercase_of(target)) {
        Some(VotekickRefusal::UnknownTarget)
    } else {
        None
    }
}

/// What a player is told who does not get a vote.
pub open spec fn refusal_text(refusal: VotekickRefusal, target: Seq<char>) -> Seq<char> {
    match refusal {
        VotekickRefusal::TooFewPlayers =>
            "[scarlet]At least 3 players are needed to start a votekick."@,
        VotekickRefusal::AlreadyRunning => "[scarlet]A vote is already in progress."@,
        VotekickRefusal::NoTarget =>
            "[orange]Players to kick: use /votekick <name> <reason>"@,
        VotekickRefusal::NoReason =>
            "[orange]You need a valid reason to kick the player. Add a reason after the player name."@,
        VotekickRefusal::Cooldown => "[scarlet]You must wait 5 minutes between votekicks."@,
        VotekickRefusal::UnknownTarget =>
            "[scarlet]No player [orange]'"@ + target + "'[scarlet] found."@,
    }
}

/// What a player is told who started a vote.
pub open spec fn started_text(target: Seq<char>, reason: Seq<char>) -> Seq<char> {
    "[lightgray]Reason:[orange] "@ + reason + "[lightgray]. Vote started for [orange]"@ + target
        + "[lightgray]. Type /vote y or /vote n."@
}

/// The vote and the messages after an attempt to start one. A vote starts with the voice of
/// whoever started it, and sets their clock.
pub open spec fn votekick(
    ctx: CommandContext,
    votes: VoteView,
    player: SessionPlayer,
    args: Seq<char>,
) -> (VoteView, Seq<EffectView>) {
    let (target, rest) = first_word(args);
    match votekick_refusal(ctx, votes, player, args) {
        Some(refusal) => (votes, reply(ctx, player.id, refusal_text(refusal, target))),
        None => (
            VoteView {
                target: Some(target),
                votes: 1,
                voters: Map::empty().insert(player.uuid@, 1i32),
                cooldowns: votes.cooldowns.insert(player.uuid@, ctx.now),
            },
            reply(ctx, player.id, started_text(target, joined(words(rest)))),
        ),
    }
}

fn check_cooldown(votes: &VoteState, uuid: &str, now: u64) -> (r: bool)
    requires
        votes.wf(),
    ensures
        r == on_cooldown(votes@, uuid@, now),
{
    match votes.cooldowns.get(uuid) {
        Some(last) => time_since(*last, now) < VOTE_COOLDOWN,
        None => false,
    }
}

fn refuse(ctx: &CommandContext, player_id: i32, refusal: VotekickRefusal, target: &str) -> (r: Vec<
    Effect,
>)
    requires
        ctx.wf(),
    ensures
        effects_of(r@) == reply(*ctx, player_id, refusal_text(refusal, target@)),
{
    let text = match refusal {
        VotekickRefusal::TooFewPlayers =>
            "[scarlet]At least 3 players are needed to start a votekick.".to_owned(),
        VotekickRefusal::AlreadyRunning => "[scarlet]A vote is already in progress.".to_owned(),
        VotekickRefusal::NoTarget =>
            "[orange]Players to kick: use /votekick <name> <reason>".to_owned(),
        VotekickRefusal::NoReason =>
            "[orange]You need a valid reason to kick the player. Add a reason after the player name.".to_owned(),
        VotekickRefusal::Cooldown =>
            "[scarlet]You must wait 5 minutes between votekicks.".to_owned(),
        VotekickRefusal::UnknownTarget => {
            let mut text = "[scarlet]No player [orange]'".to_owned();
            text.append(target);
            text.append("'[scarlet] found.");
            text
        },
    };
    send_message_to_player(ctx, player_id, text.as_str())
}

fn run_votekick(
    ctx: &CommandContext,
    votes: &mut VoteState,
    player: &SessionPlayer,
    args: &str,
) -> (r: Vec<Effect>)
    requires
        ctx.wf(),
        old(votes).wf(),
    ensures
        (final(votes)@, effects_of(r@)) == votekick(*ctx, old(votes)@, *player, args@),
        final(votes).wf(),
        final(votes)@.voters.dom().len() <= old(votes)@.voters.dom().len() + 1,
{
    let (target, rest) = split_first_word(args);
    if ctx.connections.len() < 3 {
        return refuse(ctx, player.id, VotekickRefusal::TooFewPlayers, target.as_str());
    }
    if votes.target.is_some() {
        return refuse(ctx, player.id, VotekickRefusal::AlreadyRunning, target.as_str());
    }
    let reason = join_words(rest.as_str());
    if target.as_str().is_empty() {
        return refuse(ctx, player.id, VotekickRefusal::NoTarget, target.as_str());
    }
    if reason.as_str().is_empty() {
        return refuse(ctx, player.id, VotekickRefusal::NoReason, target.as_str());
    }
    if check_cooldown(votes, player.uuid.as_str(), ctx.now) {
        return refuse(ctx, player.id, VotekickRefusal::Cooldown, target.as_str());
    }
    let lower = to_lowercase(target.as_str());
    if !has_player_named(ctx.connections, lower.as_str()) {
        return refuse(ctx, player.id, VotekickRefusal::UnknownTarget, target.as_str());
    }
    let mut text = "[lightgray]Reason:[orange] ".to_owned();
    text.append(reason.as_str());
    text.append("[lightgray]. Vote started for [orange]");
    text.append(target.as_str());
    text.append("[lightgray]. Type /vote y or /vote n.");
    assert(text@ == started_text(target@, reason@));
    votes.target = Some(target);
    votes.votes = 1;
    let mut voters: NamedRegistry<i32> = NamedRegistry::new();
    voters.insert(player.uuid.clone(), 1);
    votes.voters = voters;
    votes.cooldowns.insert(player.uuid.clone(), ctx.now);
    send_message_to_player(ctx, player.id, text.as_str())
}

// ---------------------------------------------------------------------------
// Voting.

/// How many voices carry a vote.
pub open spec fn voices_needed(connections: nat) -> int {
    if connections > 4 { 3 } else { 2 }
}

/// The identity of the first session with this lower-case name.
pub open spec fn identity_of(
    sessions: Map<i32, SessionPlayer>,
    keys: Seq<i32>,
    lower: Seq<char>,
) -> Option<Seq<char>>
    decreases keys.len(),
{
    if keys.len() == 0 {
        None
    } else if lowercase_of(sessions[keys[0]].name@) == lower {
        Some(sessions[keys[0]].uuid@)
    } else {
        identity_of(sessions, keys.skip(1), lower)
    }
}

fn find_identity(sessions: &Registry<SessionPlayer>, lower: &str) -> (r: Option<String>)
    requires
        sessions.wf(),
    ensures
        match identity_of(sessions@, sessions.spec_keys(), lower@) {
            Some(uuid) => r matches Some(out) && out@ == uuid,
            None => r is None,
        },
{
    let keys = sessions.keys();
    let mut i: usize = 0;
    assert(keys@.skip(0) =~= keys@);
    while i < keys.len()
        invariant
            sessions.wf(),
            i <= keys@.len(),
            keys@ == sessions.spec_keys(),
            forall|key: i32| keys@.contains(key) <==> sessions@.dom().contains(key),
            identity_of(sessions@, keys@, lower@) == identity_of(
                sessions@,
                keys@.skip(i as int),
                lower@,
            ),
        decreases keys@.len() - i,
    {
        assert(keys@.contains(keys@[i as int]));
        assert(keys@.skip(i as int).skip(1) =~= keys@.skip(i + 1));
        match sessions.get(keys[i]) {
            Some(session) => {
                let own = to_lowercase(session.name.as_str());
                if text_eq(own.as_str(), lower) {
                    return Some(session.uuid.clone());
                }
            },
            None => {},
        }
        i += 1;
    }
    None
}

/// What a passed vote does to the connections: each that carries the target gets the kick,
/// and the target is kept out for an hour from its address.
pub open spec fn kicked_out(ctx: CommandContext, keys: Seq<i32>, lower: Seq<char>) -> Seq<
    EffectView,
>
    decreases keys.len(),
{
    if keys.len() == 0 {
        Seq::empty()
    } else {
        let before = kicked_out(ctx, keys.drop_last(), lower);
        let id = keys.last();
        let connection = ctx.connections@[id];
        if !carries(connection, lower) {
            before
        } else {
            let kick = before.push(
                EffectView::Send {
                    connection: id,
                    frame: framed(KICK_2_PACKET_ID, seq![VOTE_REASON])->Ok_0,
                    critical: true,
                },
            );
            match identity_of(ctx.sessions@, ctx.sessions.spec_keys(), lower) {
                Some(uuid) => kick.push(
                    EffectView::Kicked {
                        uuid,
                        ip: connection.ip@,
                        seconds: VOTE_KICK_SECONDS,
                    },
                ),
                None => kick,
            }
        }
    }
}

fn kick_out(ctx: &CommandContext, lower: &str) -> (r: Vec<Effect>)
    requires
        ctx.wf(),
    ensures
        effects_of(r@) == kicked_out(*ctx, ctx.connections.spec_keys(), lower@),
{
    let keys = ctx.connections.keys();
    let mut r: Vec<Effect> = Vec::new();
    let mut i: usize = 0;
    assert(keys@.take(0) =~= Seq::empty());
    assert(effects_of(r@) =~= Seq::empty());
    while i < keys.len()
        invariant
            ctx.wf(),
            i <= keys@.len(),
            forall|key: i32| keys@.contains(key) <==> ctx.connections@.dom().contains(key),
            effects_of(r@) == kicked_out(*ctx, keys@.take(i as int), lower@),
        decreases keys@.len() - i,
    {
        assert(keys@.contains(keys@[i as int]));
        assert(keys@.take(i + 1).drop_last() =~= keys@.take(i as int));
        match ctx.connections.get(keys[i]) {
            Some(connection) => {
                if is_carried(connection, lower) {
                    let ghost so_far = r@;
                    match kick_reason_frame(VOTE_REASON) {
                        Ok(frame) => {
                            r.push(Effect::Send { connection: keys[i], frame, critical: true });
                        },
                        Err(_) => {},
                    }
                    assert(effects_of(r@) =~= effects_of(so_far).push(r@.last()@));
                    let ghost kicked = r@;
                    match find_identity(ctx.sessions, lower) {
                        Some(uuid) => {
                            r.push(
                                Effect::Kicked {
                                    uuid,
                                    ip: connection.ip.clone(),
                                    seconds: VOTE_KICK_SECONDS,
                                },
                            );
                            assert(effects_of(r@) =~= effects_of(kicked).push(r@.last()@));
                        },
                        None => {},
                    }
                }
            },
            None => {},
        }
        i += 1;
    }
    assert(keys@.take(i as int) =~= keys@);
    r
}

/// What a vote counts as.
#[derive(Clone, Copy, Debug, PartialEq, Eq, Structural)]
pub enum Choice {
    Cancel,
    Yes,
    No,
    Unknown,
}

pub open spec fn choice_of(args: Seq<char>) -> Choice {
    let choice = ascii_lower_text(trimmed(args));
    if choice == "c"@ || choice == "cancel"@ {
        Choice::Cancel
    } else if choice == "y"@ || choice == "yes"@ {
        Choice::Yes
    } else if choice == "n"@ || choice == "no"@ {
        Choice::No
    } else {
        Choice::Unknown
    }
}

fn parse_choice(args: &str) -> (r: Choice)
    ensures
        r == choice_of(args@),
{
    let text = trim(args);
    let choice = to_ascii_lowercase(text.as_str());
    let c = choice.as_str();
    if text_eq(c, "c") || text_eq(c, "cancel") {
        Choice::Cancel
    } else if text_eq(c, "y") || text_eq(c, "yes") {
        Choice::Yes
    } else if text_eq(c, "n") || text_eq(c, "no") {
        Choice::No
    } else {
        Choice::Unknown
    }
}

/// The vote and the messages after a player's voice. Everyone has one voice; an admin may
/// cancel. A vote that has its voices is over, and the target is kicked.
pub open spec fn vote(
    ctx: CommandContext,
    votes: VoteView,
    player: SessionPlayer,
    args: Seq<char>,
) -> (VoteView, Seq<EffectView>) {
    match votes.target {
        None => (votes, reply(ctx, player.id, "[scarlet]Nobody is being voted on."@)),
        Some(target) => match choice_of(args) {
            Choice::Cancel => if player.admin {
                (
                    votes.ended(),
                    reply(
                        ctx,
                        player.id,
                        "[lightgray]Vote canceled by admin [orange]"@ + player.name@
                            + "[lightgray]."@,
                    ),
                )
            } else {
                (votes, reply(ctx, player.id, "[scarlet]Only admins can cancel the vote."@))
            },
            Choice::Unknown => (
                votes,
                reply(ctx, player.id, "[scarlet]Vote either 'y' (yes) or 'n' (no)."@),
            ),
            Choice::Yes => {
                let voters = votes.voters.insert(player.uuid@, 1i32);
                if votes.voters.dom().contains(player.uuid@) {
                    (
                        VoteView { voters, ..votes },
                        reply(ctx, player.id, "[scarlet]You've already voted. Sit down."@),
                    )
                } else if votes.votes + 1 >= voices_needed(ctx.connections.spec_keys().len()) {
                    (
                        votes.ended(),
                        kicked_out(ctx, ctx.connections.spec_keys(), lowercase_of(target)),
                    )
                } else {
                    (VoteView { voters, votes: votes.votes + 1, ..votes }, Seq::empty())
                }
            },
            Choice::No => {
                let voters = votes.voters.insert(player.uuid@, -1i32);
                if votes.voters.dom().contains(player.uuid@) {
                    (
                        VoteView { voters, ..votes },
                        reply(ctx, player.id, "[scarlet]You've already voted. Sit down."@),
                    )
                } else {
                    (
                        VoteView { voters, votes: votes.votes - 1, ..votes },
                        reply(ctx, player.id, "[lightgray]Vote recorded."@),
                    )
                }
            },
        },
    }
}

fn run_vote(
    ctx: &CommandContext,
    votes: &mut VoteState,
    player: &SessionPlayer,
    args: &str,
) -> (r: Vec<Effect>)
    requires
        ctx.wf(),
        old(votes).wf(),
        old(votes)@.voters.dom().len() < 0x7FFF_FFFF,
    ensures
        (final(votes)@, effects_of(r@)) == vote(*ctx, old(votes)@, *player, args@),
        final(votes).wf(),
        final(votes)@.voters.dom().len() <= old(votes)@.voters.dom().len() + 1,
{
    let ghost before = votes@;
    let target = match &votes.target {
        Some(target) => target.clone(),
        None => {
            return send_message_to_player(ctx, player.id, "[scarlet]Nobody is being voted on.");
        },
    };
    match parse_choice(args) {
        Choice::Cancel => {
            if !player.admin {
                return send_message_to_player(
                    ctx,
                    player.id,
                    "[scarlet]Only admins can cancel the vote.",
                );
            }
            votes.end();
            let mut text = "[lightgray]Vote canceled by admin [orange]".to_owned();
            text.append(player.name.as_str());
            text.append("[lightgray].");
            send_message_to_player(ctx, player.id, text.as_str())
        },
        Choice::Unknown => send_message_to_player(
            ctx,
            player.id,
            "[scarlet]Vote either 'y' (yes) or 'n' (no).",
        ),
        Choice::Yes => {
            if votes.voters.insert(player.uuid.clone(), 1) {
                assert(votes@ =~= VoteView {
                    voters: before.voters.insert(player.uuid@, 1i32),
                    ..before
                });
                return send_message_to_player(
                    ctx,
                    player.id,
                    "[scarlet]You've already voted. Sit down.",
                );
            }
            votes.votes = votes.votes + 1;
            let required: i32 = if ctx.connections.len() > 4 { 3 } else { 2 };
            if votes.votes >= required {
                votes.end();
                assert(votes@ =~= before.ended());
                let lower = to_lowercase(target.as_str());
                return kick_out(ctx, lower.as_str());
            }
            assert(votes@ =~= VoteView {
                voters: before.voters.insert(player.uuid@, 1i32),
                votes: before.votes + 1,
                ..before
            });
            let r: Vec<Effect> = Vec::new();
            assert(effects_of(r@) =~= Seq::empty());
            r
        },
        Choice::No => {
            if votes.voters.insert(player.uuid.clone(), -1) {
                assert(votes@ =~= VoteView {
                    voters: before.voters.insert(player.uuid@, -1i32),
                    ..before
                });
                return send_message_to_player(
                    ctx,
                    player.id,
                    "[scarlet]You've already voted. Sit down.",
                );
            }
            votes.votes = votes.votes - 1;
            assert(votes@ =~= VoteView {
                voters: before.voters.insert(player.uuid@, -1i32),
                votes: before.votes - 1,
                ..before
            });
            send_message_to_player(ctx, player.id, "[lightgray]Vote recorded.")
        },
    }
}

// ---------------------------------------------------------------------------
// Commands.

/// The list of commands.
pub open spec fn help_text() -> Seq<char> {
    "[orange]-- Commands --\n[orange] /t <msg>[white] - team chat\n[orange] /a <msg>[white] - admin chat\n[orange] /votekick <player> <reason>[white] - vote to kick\n[orange] /vote <y/n>[white] - vote\n[orange] /sync[white] - re-sync world\n[orange] /help[white] - this list"@
}

/// A command and its arguments: the first character goes, then the first word up to a space
/// in ASCII lower case, then the rest.
pub open spec fn command_of(message: Seq<char>) -> (Seq<char>, Seq<char>) {
    let (name, args) = split_once(message.skip(1), ' ');
    (ascii_lower_text(name), args)
}

/// What a command makes of the vote, of the player's clock, and what it sends.
pub open spec fn command_outcome(
    ctx: CommandContext,
    votes: VoteView,
    player: SessionPlayer,
    message: Seq<char>,
) -> (VoteView, u64, Seq<EffectView>) {
    let (command, args) = command_of(message);
    if command == "t"@ || command == "teamchat"@ {
        (votes, player.last_shot, team_chat(ctx, player, args))
    } else if command == "a"@ || command == "adminchat"@ {
        (votes, player.last_shot, admin_chat(ctx, player, args))
    } else if command == "help"@ {
        (votes, player.last_shot, reply(ctx, player.id, help_text()))
    } else if command == "sync"@ {
        if elapsed(player.last_shot, ctx.now) < SYNC_COOLDOWN {
            (
                votes,
                player.last_shot,
                reply(ctx, player.id, "[scarlet]You may only /sync every 5 seconds."@),
            )
        } else {
            (
                votes,
                ctx.now,
                reply(ctx, player.id, "[lightgray]World synchronization requested."@),
            )
        }
    } else if command == "votekick"@ {
        let (after, effects) = votekick(ctx, votes, player, args);
        (after, player.last_shot, effects)
    } else if command == "vote"@ {
        let (after, effects) = vote(ctx, votes, player, args);
        (after, player.last_shot, effects)
    } else {
        (
            votes,
            player.last_shot,
            reply(
                ctx,
                player.id,
                "[scarlet]Unknown command '/"@ + command + "'. Use /help."@,
            ),
        )
    }
}

/// Runs a chat command of a player. The message begins with the command mark.
pub fn handle_client_command(
    ctx: &CommandContext,
    votes: &mut VoteState,
    player: &mut SessionPlayer,
    message: &str,
) -> (r: Vec<Effect>)
    requires
        ctx.wf(),
        old(votes).wf(),
        old(votes)@.voters.dom().len() < 0x7FFF_FFFF,
        message@.len() > 0,
    ensures
        (final(votes)@, final(player).last_shot, effects_of(r@)) == command_outcome(
            *ctx,
            old(votes)@,
            *old(player),
            message@,
        ),
        *final(player) == (SessionPlayer {
            last_shot: final(player).last_shot,
            ..*old(player)
        }),
        final(votes).wf(),
{
    let n: usize = message.unicode_len();
    let body = message.substring_char(1, n);
    assert(body@ =~= message@.skip(1));
    let (name, args) = split_at_char(body, ' ');
    let command = to_ascii_lowercase(name.as_str());
    let c = command.as_str();
    if text_eq(c, "t") || text_eq(c, "teamchat") {
        return run_team_chat(ctx, player, args.as_str());
    }
    if text_eq(c, "a") || text_eq(c, "adminchat") {
        return run_admin_chat(ctx, player, args.as_str());
    }
    if text_eq(c, "help") {
        return send_message_to_player(
            ctx,
            player.id,
            "[orange]-- Commands --\n[orange] /t <msg>[white] - team chat\n[orange] /a <msg>[white] - admin chat\n[orange] /votekick <player> <reason>[white] - vote to kick\n[orange] /vote <y/n>[white] - vote\n[orange] /sync[white] - re-sync world\n[orange] /help[white] - this list",
        );
    }
    if text_eq(c, "sync") {
        if time_since(player.last_shot, ctx.now) < SYNC_COOLDOWN {
            return send_message_to_player(
                ctx,
                player.id,
                "[scarlet]You may only /sync every 5 seconds.",
            );
        }
        player.last_shot = ctx.now;
        return send_message_to_player(
            ctx,
            player.id,
            "[lightgray]World synchronization requested.",
        );
    }
    if text_eq(c, "votekick") {
        return run_votekick(ctx, votes, player, args.as_str());
    }
    if text_eq(c, "vote") {
        return run_vote(ctx, votes, player, args.as_str());
    }
    let mut text = "[scarlet]Unknown command '/".to_owned();
    text.append(c);
    text.append("'. Use /help.");
    send_message_to_player(ctx, player.id, text.as_str())
}

// ---------------------------------------------------------------------------
// Laws.

/// A voice counts once: a second voice of the same player changes neither the count nor who
/// is voted on.
pub proof fn law_one_voice_each(
    ctx: CommandContext,
    votes: VoteView,
    player: SessionPlayer,
    args: Seq<char>,
)
    requires
        votes.voters.dom().contains(player.uuid@),
        choice_of(args) == Choice::Yes || choice_of(args) == Choice::No,
    ensures
        vote(ctx, votes, player, args).0.votes == votes.votes,
        vote(ctx, votes, player, args).0.target == votes.target,
{
}

/// Whoever starts a vote has voted, and must wait before the next.
pub proof fn law_starting_is_voting(
    ctx: CommandContext,
    votes: VoteView,
    player: SessionPlayer,
    args: Seq<char>,
)
    requires
        votekick_refusal(ctx, votes, player, args) is None,
    ensures
        ({
            let after = votekick(ctx, votes, player, args).0;
            &&& after.votes == 1
            &&& after.voters.dom().contains(player.uuid@)
            &&& on_cooldown(after, player.uuid@, ctx.now)
            &&& votekick_refusal(ctx, after, player, args) == Some(VotekickRefusal::AlreadyRunning)
        }),
{
}

/// A vote that passed or was cancelled is over: nobody is voted on and no voice is left.
pub proof fn law_ended_vote_is_over(votes: VoteView)
    ensures
        votes.ended().target is None,
        votes.ended().votes == 0,
        votes.ended().voters == Map::<Seq<char>, i32>::empty(),
        votes.ended().cooldowns == votes.cooldowns,
        votes.ended().wf(),
{
}

/// A new voice carries the vote exactly when it makes the number that is needed; until then
/// nothing is sent and the vote goes on.
pub proof fn law_vote_passes_with_enough_voices(
    ctx: CommandContext,
    votes: VoteView,
    player: SessionPlayer,
    args: Seq<char>,
)
    requires
        votes.target is Some,
        choice_of(args) == Choice::Yes,
        !votes.voters.dom().contains(player.uuid@),
    ensures
        ({
            let (after, effects) = vote(ctx, votes, player, args);
            if votes.votes + 1 >= voices_needed(ctx.connections.spec_keys().len()) {
                after.target is None && effects == kicked_out(
                    ctx,
                    ctx.connections.spec_keys(),
                    lowercase_of(votes.target.unwrap()),
                )
            } else {
                after.target == votes.target && after.votes == votes.votes + 1 && effects.len()
                    == 0
            }
        }),
{
}

} // verus!
