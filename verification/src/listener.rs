//! The listener's decisions: who may connect, which datagram belongs to whom, and what a
//! registration does.

use crate::codec::{of_be32, signed32, slice_to_vec, to_signed32};
use crate::outbound::{
    after_send_step, law_one_way, outcome_of, way_of, Endpoint, Outgoing, OutgoingView,
    PendingConnection, SendResult, StepView,
};
use crate::protocol::{DISCOVER_HOST, FRAMEWORK_PACKET_LEN, REGISTER_UDP};
use crate::registry::Registry;
use crate::text::text_eq;
use crate::wire::{
    connection_limit_blocks_accept, framework_registration, ServerInfo, SessionPlayer,
    FRAMEWORK_MESSAGE,
};
use vstd::array::array_as_slice;
use vstd::prelude::*;
use vstd::string::*;

verus! {

// ---------------------------------------------------------------------------
// Settings.

/// The settings of a listener. Paths are texts; sockets and channels belong to whoever
/// starts it.
pub struct NetworkListener {
    pub port: u16,
    pub server_info: ServerInfo,
    pub save_path: String,
    pub map_path: Option<String>,
    /// World steps per second; the official game has 60.
    pub tps: u32,
}

/// The ticks in a second, at least one.
pub open spec fn usable_tps(tps: u32) -> u32 {
    if tps < 1 { 1 } else { tps }
}

impl NetworkListener {
    pub fn new(port: u16, server_info: ServerInfo) -> (r: NetworkListener)
        ensures
            r.port == port,
            r.server_info == server_info,
            r.save_path@ == "world-delta.json"@,
            r.map_path is None,
            r.tps == 10,
    {
        NetworkListener {
            port,
            server_info,
            save_path: "world-delta.json".to_owned(),
            map_path: None,
            tps: 10,
        }
    }

    pub fn with_save_path(self, save_path: String) -> (r: NetworkListener)
        ensures
            r == (NetworkListener { save_path, ..self }),
    {
        let mut r = self;
        r.save_path = save_path;
        r
    }

    pub fn with_map_path(self, map_path: Option<String>) -> (r: NetworkListener)
        ensures
            r == (NetworkListener { map_path, ..self }),
    {
        let mut r = self;
        r.map_path = map_path;
        r
    }

    /// Sets the world steps per second, at least one.
    pub fn with_tps(self, tps: u32) -> (r: NetworkListener)
        ensures
            r == (NetworkListener { tps: usable_tps(tps), ..self }),
    {
        let mut r = self;
        r.tps = if tps < 1 { 1 } else { tps };
        r
    }

    pub fn with_server_info(
        self,
        name: String,
        description: String,
        build: i32,
        version_type: String,
    ) -> (r: NetworkListener)
        ensures
            r == (NetworkListener {
                server_info: (ServerInfo { name, description, build, version_type }),
                ..self
            }),
    {
        let mut r = self;
        r.server_info = ServerInfo { name, description, build, version_type };
        r
    }
}

// ---------------------------------------------------------------------------
// Accepting.

/// What happens to a new connection.
#[derive(Clone, Copy, Debug, PartialEq, Eq, Structural)]
pub enum Admission {
    Banned,
    LimitReached,
    Accepted,
}

/// What becomes of a new connection; see [`decide_admission`].
pub open spec fn admission(
    blacklisted: bool,
    banned: bool,
    limit: u32,
    connections: usize,
) -> Admission {
    if blacklisted || banned {
        Admission::Banned
    } else if limit > 0 && connections >= limit {
        Admission::LimitReached
    } else {
        Admission::Accepted
    }
}

/// Decides on a new connection: banned addresses first, then the limit.
pub fn decide_admission(blacklisted: bool, banned: bool, limit: u32, connections: usize) -> (r: Admission)
    ensures
        r == admission(blacklisted, banned, limit, connections),
{
    if blacklisted || banned {
        Admission::Banned
    } else if connection_limit_blocks_accept(limit, connections) {
        Admission::LimitReached
    } else {
        Admission::Accepted
    }
}

/// Calls `rand::random` for a 32-bit number. It is drawn by chance, so nothing is said of
/// it.
#[verifier::external_body]
fn random_id() -> (id: i32) {
    rand::random()
}

/// Whether a number can be given to a new connection. Zero never is: a client takes it for
/// a number that was not set.
pub open spec fn free_id(connections: Map<i32, PendingConnection>, id: i32) -> bool {
    id != 0 && !connections.dom().contains(id)
}

/// Whether a number can be given to a new connection.
pub fn is_free_id(connections: &Registry<PendingConnection>, id: i32) -> (r: bool)
    requires
        connections.wf(),
    ensures
        r == free_id(connections@, id),
{
    id != 0 && !connections.contains_key(id)
}

/// How many numbers are drawn before the free ones are looked up in order.
const ID_DRAWS: u32 = 1024;

/// Less than all numbers are taken, so one is left.
proof fn lemma_a_number_is_left(connections: Registry<PendingConnection>)
    requires
        connections.wf(),
        forall|n: u32| n > 0 ==> connections@.dom().contains(#[trigger] signed32(n)),
    ensures
        connections.spec_keys().len() >= 0xFFFF_FFFF,
{
    connections.lemma_keys();
    let keys = connections.spec_keys();
    keys.unique_seq_to_set();
    let taken = keys.to_set();
    let all = vstd::set_lib::set_int_range(1, 0x1_0000_0000);
    vstd::set_lib::lemma_int_range(1, 0x1_0000_0000);
    let number = |n: int| signed32(n as u32);
    let numbers = all.map(number);
    assert(vstd::relations::injective_on(number, all)) by {
        assert forall|m: int, n: int|
            all.contains(m) && all.contains(n) && #[trigger] number(m) == #[trigger] number(
                n,
            ) implies m == n by {}
    }
    vstd::set_lib::lemma_map_size(all, numbers, number);
    assert(numbers.subset_of(taken)) by {
        assert forall|id: i32| numbers.contains(id) implies taken.contains(id) by {
            let n = choose|n: int| all.contains(n) && number(n) == id;
            assert(connections@.dom().contains(signed32(n as u32)));
        }
    }
    vstd::set_lib::lemma_len_subset(numbers, taken);
}

/// The first number that is free.
fn first_free_id(connections: &Registry<PendingConnection>) -> (id: i32)
    requires
        connections.wf(),
        connections.spec_keys().len() < 0xFFFF_FFFF,
    ensures
        free_id(connections@, id),
{
    let mut n: u32 = 1;
    while n < u32::MAX
        invariant
            connections.wf(),
            1 <= n,
            forall|m: u32| 0 < m < n ==> connections@.dom().contains(#[trigger] signed32(m)),
        decreases u32::MAX - n,
    {
        let id: i32 = to_signed32(n);
        if is_free_id(connections, id) {
            return id;
        }
        n += 1;
    }
    let id: i32 = to_signed32(n);
    proof {
        if connections@.dom().contains(id) {
            lemma_a_number_is_left(*connections);
        }
    }
    id
}

/// A number for a new connection. Numbers are drawn until one is free; where chance has not
/// found one for long, the first free one is taken. Which one it is is left to chance;
/// [`is_free_id`] decides on each.
pub fn allocate_connection_id(connections: &Registry<PendingConnection>) -> (id: i32)
    requires
        connections.wf(),
        connections.spec_keys().len() < 0xFFFF_FFFF,
    ensures
        free_id(connections@, id),
{
    let mut left: u32 = ID_DRAWS;
    while left > 0
        invariant
            connections.wf(),
        decreases left,
    {
        let id: i32 = random_id();
        if is_free_id(connections, id) {
            return id;
        }
        left -= 1;
    }
    first_free_id(connections)
}

/// A new connection: nothing is registered and nothing counted.
pub fn accepted_connection(ip: String, udp_socket: bool) -> (r: PendingConnection)
    ensures
        r == (PendingConnection {
            ip,
            player_name: None,
            udp_endpoint: None,
            udp_socket,
            outbound_queued: 0,
            outbound_drops: 0,
            critical_drops: 0,
        }),
{
    PendingConnection {
        ip,
        player_name: None,
        udp_endpoint: None,
        udp_socket,
        outbound_queued: 0,
        outbound_drops: 0,
        critical_drops: 0,
    }
}

// ---------------------------------------------------------------------------
// Datagrams.

/// What to do with a datagram.
#[derive(Clone, Copy, Debug, PartialEq, Eq, Structural)]
pub enum DatagramAction {
    /// Answer with the server info.
    Discovery,
    /// Register the sender for this connection.
    Register(i32),
    /// A registration of the wrong length.
    MalformedRegistration,
    /// Another framework message.
    Ignore,
    /// Hand it to the connection of its sender.
    Route,
}

pub open spec fn datagram_action(data: Seq<u8>) -> DatagramAction {
    if data.len() >= 2 && data[0] == FRAMEWORK_MESSAGE {
        if data[1] == DISCOVER_HOST {
            DatagramAction::Discovery
        } else if data[1] == REGISTER_UDP {
            if data.len() == FRAMEWORK_PACKET_LEN {
                DatagramAction::Register(signed32(of_be32(data.skip(2))))
            } else {
                DatagramAction::MalformedRegistration
            }
        } else {
            DatagramAction::Ignore
        }
    } else {
        DatagramAction::Route
    }
}

/// Decides what to do with a datagram.
pub fn classify_datagram(data: &[u8]) -> (r: DatagramAction)
    ensures
        r == datagram_action(data@),
{
    if data.len() < 2 || data[0] != FRAMEWORK_MESSAGE {
        return DatagramAction::Route;
    }
    if data[1] == DISCOVER_HOST {
        DatagramAction::Discovery
    } else if data[1] == REGISTER_UDP {
        if data.len() != FRAMEWORK_PACKET_LEN {
            return DatagramAction::MalformedRegistration;
        }
        let hi: u16 = data[2] as u16 * 0x100 + data[3] as u16;
        let lo: u16 = data[4] as u16 * 0x100 + data[5] as u16;
        let bits: u32 = hi as u32 * 0x1_0000 + lo as u32;
        assert(bits == of_be32(data@.skip(2)));
        DatagramAction::Register(to_signed32(bits))
    } else {
        DatagramAction::Ignore
    }
}

/// What came of a registration.
#[derive(Debug, Clone, Copy, PartialEq, Eq, Structural)]
pub enum RegisterUdpOutcome {
    Bound,
    AlreadyBound,
    UnknownId,
    IpMismatch,
}

/// What comes of a registration: the connection must be there, come from the same address
/// and not be bound yet.
pub open spec fn registration(
    connections: Map<i32, PendingConnection>,
    id: i32,
    source: Endpoint,
) -> RegisterUdpOutcome {
    if !connections.dom().contains(id) {
        RegisterUdpOutcome::UnknownId
    } else if connections[id].ip@ != source.ip@ {
        RegisterUdpOutcome::IpMismatch
    } else if connections[id].udp_endpoint is Some {
        RegisterUdpOutcome::AlreadyBound
    } else {
        RegisterUdpOutcome::Bound
    }
}

/// The connection, bound to an endpoint.
pub open spec fn with_endpoint(connection: PendingConnection, source: Endpoint) -> PendingConnection {
    PendingConnection { udp_endpoint: Some(source), ..connection }
}

/// The confirmation of a registration: a registration with the number 0.
pub open spec fn confirmation() -> Seq<u8> {
    crate::codec::be16(6) + seq![FRAMEWORK_MESSAGE, REGISTER_UDP] + crate::codec::be32(0)
}

/// What a registration is answered: one that was bound gets the confirmation, in the queue of
/// its connection, and every other one gets nothing.
pub open spec fn registration_answer(outcome: RegisterUdpOutcome, id: i32) -> Option<OutgoingView> {
    if outcome == RegisterUdpOutcome::Bound {
        Some(
            OutgoingView {
                connection: id,
                frame: confirmation(),
                critical: true,
                force_tcp: true,
            },
        )
    } else {
        None
    }
}

/// The connections after a registration.
pub open spec fn after_registration(
    connections: Map<i32, PendingConnection>,
    id: i32,
    source: Endpoint,
) -> Map<i32, PendingConnection> {
    if registration(connections, id, source) == RegisterUdpOutcome::Bound {
        connections.insert(id, with_endpoint(connections[id], source))
    } else {
        connections
    }
}

/// Binds the endpoint of a connection once. Returns what came of it and the one frame that is
/// to be sent: the confirmation of a registration that was bound. Unknown numbers, other
/// addresses and bound numbers are refused without a change and without an answer.
pub fn apply_register_udp(
    connections: &mut Registry<PendingConnection>,
    connection_id: i32,
    source: Endpoint,
) -> (r: (RegisterUdpOutcome, Option<Outgoing>))
    requires
        old(connections).wf(),
    ensures
        final(connections).wf(),
        final(connections).spec_keys() == old(connections).spec_keys(),
        r.0 == registration(old(connections)@, connection_id, source),
        match registration_answer(r.0, connection_id) {
            Some(answer) => r.1 matches Some(order) && order@ == answer,
            None => r.1 is None,
        },
        final(connections)@ == after_registration(old(connections)@, connection_id, source),
{
    match connections.get(connection_id) {
        None => return (RegisterUdpOutcome::UnknownId, None),
        Some(connection) => {
            if !text_eq(connection.ip.as_str(), source.ip.as_str()) {
                return (RegisterUdpOutcome::IpMismatch, None);
            }
            if connection.udp_endpoint.is_some() {
                return (RegisterUdpOutcome::AlreadyBound, None);
            }
        },
    }
    match connections.get_mut(connection_id) {
        Some(connection) => {
            connection.udp_endpoint = Some(source);
        },
        None => {},
    }
    let array = framework_registration(REGISTER_UDP, 0);
    let frame = slice_to_vec(array_as_slice(&array));
    assert(frame@ =~= confirmation());
    let answer = Outgoing { connection: connection_id, frame, critical: true, force_tcp: true };
    (RegisterUdpOutcome::Bound, Some(answer))
}

/// Whether a connection is there and datagrams are bound to it.
pub open spec fn has_endpoint(connections: Map<i32, PendingConnection>, id: i32) -> bool {
    connections.dom().contains(id) && connections[id].udp_endpoint is Some
}

/// Whether a connection has finished its registration. A client may join only then.
pub fn udp_handshake_complete(connections: &Registry<PendingConnection>, connection_id: i32) -> (r:
    bool)
    requires
        connections.wf(),
    ensures
        r == has_endpoint(connections@, connection_id),
{
    match connections.get(connection_id) {
        Some(connection) => connection.udp_endpoint.is_some(),
        None => false,
    }
}

/// Whether a connection is bound to an endpoint.
pub open spec fn bound_to(connection: PendingConnection, source: Endpoint) -> bool {
    connection.udp_endpoint matches Some(e) && e.ip@ == source.ip@ && e.port == source.port
}

/// The first of the connections that is bound to an endpoint.
pub open spec fn first_bound(
    connections: Map<i32, PendingConnection>,
    keys: Seq<i32>,
    source: Endpoint,
) -> Option<i32>
    decreases keys.len(),
{
    if keys.len() == 0 {
        None
    } else if bound_to(connections[keys[0]], source) {
        Some(keys[0])
    } else {
        first_bound(connections, keys.skip(1), source)
    }
}

/// The connection that a datagram goes to: the one that registered its sender. The datagram
/// of an unknown sender goes to nobody.
pub fn route_inbound_udp(connections: &Registry<PendingConnection>, source: &Endpoint) -> (r:
    Option<i32>)
    requires
        connections.wf(),
    ensures
        r == first_bound(connections@, connections.spec_keys(), *source),
{
    let keys = connections.keys();
    let mut i: usize = 0;
    assert(keys@.skip(0) =~= keys@);
    while i < keys.len()
        invariant
            connections.wf(),
            i <= keys@.len(),
            keys@ == connections.spec_keys(),
            forall|key: i32| keys@.contains(key) <==> connections@.dom().contains(key),
            first_bound(connections@, keys@, *source) == first_bound(
                connections@,
                keys@.skip(i as int),
                *source,
            ),
        decreases keys@.len() - i,
    {
        assert(keys@.contains(keys@[i as int]));
        assert(keys@.skip(i as int).skip(1) =~= keys@.skip(i + 1));
        match connections.get(keys[i]) {
            Some(connection) => match &connection.udp_endpoint {
                Some(endpoint) => {
                    if endpoint.port == source.port && text_eq(
                        endpoint.ip.as_str(),
                        source.ip.as_str(),
                    ) {
                        return Some(keys[i]);
                    }
                },
                None => {},
            },
            None => {},
        }
        i += 1;
    }
    None
}

// ---------------------------------------------------------------------------
// Leaving.

/// A 32-bit number that wraps around.
pub open spec fn wrapped32(v: int) -> i32 {
    signed32((v % 0x1_0000_0000) as u32)
}

fn sum32(a: i32, b: i32) -> (r: i32)
    ensures
        r == wrapped32(a + b),
{
    let sum: i64 = a as i64 + b as i64;
    if sum > 0x7FFF_FFFF {
        (sum - 0x1_0000_0000) as i32
    } else if sum < -0x8000_0000 {
        (sum + 0x1_0000_0000) as i32
    } else {
        sum as i32
    }
}

/// The player number of a connection.
pub open spec fn player_number(connection_id: i32) -> i32 {
    wrapped32(1_000_000 + connection_id)
}

/// The player number of a connection.
pub fn player_id_of(connection_id: i32) -> (r: i32)
    ensures
        r == player_number(connection_id),
{
    sum32(1_000_000, connection_id)
}

/// The connection of a player number.
pub open spec fn connection_number(player_id: i32) -> i32 {
    wrapped32(player_id - 1_000_000)
}

/// The connection of a player number.
pub fn connection_id_of(player_id: i32) -> (r: i32)
    ensures
        r == connection_number(player_id),
{
    sum32(player_id, -1_000_000)
}

/// Player numbers and connection numbers lead to each other.
pub proof fn law_player_numbers(id: i32)
    ensures
        connection_number(player_number(id)) == id,
        player_number(connection_number(id)) == id,
{
}

/// The unit of the first session with this player number.
pub open spec fn unit_of_player(
    sessions: Map<i32, SessionPlayer>,
    keys: Seq<i32>,
    player_id: i32,
) -> Option<i32>
    decreases keys.len(),
{
    if keys.len() == 0 {
        None
    } else if sessions[keys[0]].id == player_id {
        Some(keys[0])
    } else {
        unit_of_player(sessions, keys.skip(1), player_id)
    }
}

/// The unit that goes with a connection: that of its session, or else the one that its number
/// stands for.
pub open spec fn unit_leaving(
    sessions: Map<i32, SessionPlayer>,
    keys: Seq<i32>,
    connection_id: i32,
) -> i32 {
    match unit_of_player(sessions, keys, player_number(connection_id)) {
        Some(unit) => unit,
        None => wrapped32(2_000_000 + connection_id),
    }
}

/// The unit that goes when a connection closes: that of its session, or the number that
/// was meant for it.
pub fn departing_unit(sessions: &Registry<SessionPlayer>, connection_id: i32) -> (r: i32)
    requires
        sessions.wf(),
    ensures
        r == unit_leaving(sessions@, sessions.spec_keys(), connection_id),
{
    let player_id: i32 = player_id_of(connection_id);
    let keys = sessions.keys();
    let mut i: usize = 0;
    assert(keys@.skip(0) =~= keys@);
    while i < keys.len()
        invariant
            sessions.wf(),
            i <= keys@.len(),
            player_id == player_number(connection_id),
            forall|key: i32| keys@.contains(key) <==> sessions@.dom().contains(key),
            keys@ == sessions.spec_keys(),
            unit_of_player(sessions@, keys@, player_id) == unit_of_player(
                sessions@,
                keys@.skip(i as int),
                player_id,
            ),
        decreases keys@.len() - i,
    {
        assert(keys@.contains(keys@[i as int]));
        assert(keys@.skip(i as int).skip(1) =~= keys@.skip(i + 1));
        match sessions.get(keys[i]) {
            Some(session) => {
                if session.id == player_id {
                    return keys[i];
                }
            },
            None => {},
        }
        i += 1;
    }
    sum32(2_000_000, connection_id)
}

// ---------------------------------------------------------------------------
// Laws.

/// An endpoint is bound once: after a registration the number is bound to it, the counters of
/// a frame do not change that, and every later registration is refused and changes nothing.
pub proof fn law_registration_binds_once(
    before: Map<i32, PendingConnection>,
    id: i32,
    source: Endpoint,
    critical: bool,
    step: StepView,
    later: Endpoint,
)
    requires
        registration(before, id, source) == RegisterUdpOutcome::Bound,
    ensures
        ({
            let bound = after_registration(before, id, source);
            let after = bound.insert(id, after_send_step(bound[id], critical, step));
            &&& bound_to(bound[id], source)
            &&& bound_to(after[id], source)
            &&& registration(after, id, later) == if before[id].ip@ == later.ip@ {
                RegisterUdpOutcome::AlreadyBound
            } else {
                RegisterUdpOutcome::IpMismatch
            }
            &&& after_registration(after, id, later) == after
            &&& registration_answer(registration(after, id, later), id) is None
        }),
{
}

/// A refused registration changes nothing and is answered with nothing; one that is bound is
/// answered with the confirmation, which goes into the queue and never out as a datagram.
pub proof fn law_only_bound_registrations_are_answered(
    before: Map<i32, PendingConnection>,
    id: i32,
    source: Endpoint,
    sent: bool,
    answer: SendResult,
)
    ensures
        ({
            let outcome = registration(before, id, source);
            let after = after_registration(before, id, source);
            match registration_answer(outcome, id) {
                None => outcome != RegisterUdpOutcome::Bound && after == before,
                Some(order) => {
                    &&& outcome == RegisterUdpOutcome::Bound
                    &&& order.connection == id
                    &&& order.frame == seq![0u8, 6, 0xFE, 3, 0, 0, 0, 0]
                    &&& way_of(after[id], order.frame, order.force_tcp, sent, answer) == seq![
                        StepView::Queue(order.frame),
                        StepView::Done(outcome_of(answer)),
                    ]
                },
            }
        }),
{
    let outcome = registration(before, id, source);
    let after = after_registration(before, id, source);
    if let Some(order) = registration_answer(outcome, id) {
        assert(order.frame =~= seq![0u8, 6, 0xFE, 3, 0, 0, 0, 0]);
        law_one_way(after[id], order.frame, order.force_tcp, sent, answer);
    }
}

/// A datagram goes to a connection that registered its sender, and to nobody where there is
/// none.
pub proof fn law_datagrams_find_their_connection(
    connections: Map<i32, PendingConnection>,
    keys: Seq<i32>,
    source: Endpoint,
)
    ensures
        match first_bound(connections, keys, source) {
            Some(id) => keys.contains(id) && bound_to(connections[id], source),
            None => forall|i: int|
                0 <= i < keys.len() ==> !bound_to(connections[#[trigger] keys[i]], source),
        },
    decreases keys.len(),
{
    if keys.len() > 0 && !bound_to(connections[keys[0]], source) {
        let rest = keys.skip(1);
        law_datagrams_find_their_connection(connections, rest, source);
        match first_bound(connections, rest, source) {
            Some(id) => {
                let i = choose|i: int| 0 <= i < rest.len() && rest[i] == id;
                assert(keys[i + 1] == id);
            },
            None => {
                assert forall|i: int| 0 <= i < keys.len() implies !bound_to(
                    connections[#[trigger] keys[i]],
                    source,
                ) by {
                    if i > 0 {
                        assert(rest[i - 1] == keys[i]);
                    }
                }
            },
        }
    }
}

} // verus!
