//! Who may connect, which datagrams belong to whom, and how frames leave.

use crate::laws::frames::{lemma_of_quad, pair_at, quad_at};
use crate::listener::{
    admission, after_registration, bound_to, confirmation, datagram_action, first_bound, free_id,
    has_endpoint, registration, registration_answer, unit_leaving, unit_of_player, usable_tps,
    Admission, DatagramAction, RegisterUdpOutcome,
};
use crate::outbound::{
    address_of, after_send_step, broadcast_orders, counted, direct_order, next_step, outcome_of,
    prefers_datagram, queue_answer, queue_step, tcp_body, Endpoint, Outcome, PendingConnection,
    SendResult, StepView, Tried,
};
use crate::wire::SessionPlayer;
use vstd::prelude::*;

verus! {

// ---------------------------------------------------------------------------
// Connections.

/// Who is listed or banned is turned away, and whoever comes beyond the limit; everybody
/// else is let in. A limit of zero is none.
pub proof fn law_who_is_let_in(blacklisted: bool, banned: bool, limit: u32, connections: usize)
    ensures
        admission(blacklisted, banned, limit, connections) == Admission::Banned <==> blacklisted
            || banned,
        admission(blacklisted, banned, limit, connections) == Admission::LimitReached <==> !(
        blacklisted || banned) && limit != 0 && limit <= connections,
{
}

/// A number is free when it is not zero and nobody has it.
pub proof fn law_free_numbers(connections: Map<i32, PendingConnection>, id: i32)
    ensures
        !free_id(connections, 0),
        free_id(connections, id) ==> !connections.dom().contains(id),
        id != 0 && !connections.dom().contains(id) ==> free_id(connections, id),
{
}

/// The unit that leaves with a connection is that of the first session of its player; without
/// a session it is two million further than the connection.
pub proof fn law_unit_that_leaves(
    sessions: Map<i32, SessionPlayer>,
    keys: Seq<i32>,
    connection: i32,
    i: int,
)
    ensures
        0 <= i < keys.len() && (sessions[keys[i]].id - connection - 1_000_000) % 0x1_0000_0000 == 0
            && (forall|j: int|
            0 <= j < i ==> (sessions[#[trigger] keys[j]].id - connection - 1_000_000)
                % 0x1_0000_0000 != 0) ==> unit_leaving(sessions, keys, connection) == keys[i],
        (forall|j: int|
            0 <= j < keys.len() ==> (sessions[#[trigger] keys[j]].id - connection - 1_000_000)
                % 0x1_0000_0000 != 0) ==> (unit_leaving(sessions, keys, connection) - connection
            - 2_000_000) % 0x1_0000_0000 == 0,
{
    let number = crate::listener::player_number(connection);
    assert((number - connection - 1_000_000) % 0x1_0000_0000 == 0);
    if 0 <= i < keys.len() && (sessions[keys[i]].id - connection - 1_000_000) % 0x1_0000_0000 == 0
        && (forall|j: int|
        0 <= j < i ==> (sessions[#[trigger] keys[j]].id - connection - 1_000_000) % 0x1_0000_0000
            != 0) {
        assert(sessions[keys[i]].id == number);
        assert forall|j: int| 0 <= j < i implies sessions[#[trigger] keys[j]].id != number by {}
        lemma_unit_of_player(sessions, keys, number, i);
    }
    if forall|j: int|
        0 <= j < keys.len() ==> (sessions[#[trigger] keys[j]].id - connection - 1_000_000)
            % 0x1_0000_0000 != 0 {
        assert forall|j: int| 0 <= j < keys.len() implies sessions[#[trigger] keys[j]].id
            != number by {}
        lemma_no_unit_of_player(sessions, keys, number);
    }
}

proof fn lemma_unit_of_player(
    sessions: Map<i32, SessionPlayer>,
    keys: Seq<i32>,
    number: i32,
    i: int,
)
    requires
        0 <= i < keys.len(),
        sessions[keys[i]].id == number,
        forall|j: int| 0 <= j < i ==> sessions[#[trigger] keys[j]].id != number,
    ensures
        unit_of_player(sessions, keys, number) == Some(keys[i]),
    decreases keys.len(),
{
    if i > 0 {
        let rest = keys.skip(1);
        assert(sessions[keys[0]].id != number);
        assert forall|j: int| 0 <= j < i - 1 implies sessions[#[trigger] rest[j]].id
            != number by {
            assert(rest[j] == keys[j + 1]);
        }
        assert(rest[i - 1] == keys[i]);
        lemma_unit_of_player(sessions, rest, number, i - 1);
    }
}

proof fn lemma_no_unit_of_player(sessions: Map<i32, SessionPlayer>, keys: Seq<i32>, number: i32)
    requires
        forall|j: int| 0 <= j < keys.len() ==> sessions[#[trigger] keys[j]].id != number,
    ensures
        unit_of_player(sessions, keys, number) is None,
    decreases keys.len(),
{
    if keys.len() > 0 {
        let rest = keys.skip(1);
        assert(sessions[keys[0]].id != number);
        assert forall|j: int| 0 <= j < rest.len() implies sessions[#[trigger] rest[j]].id
            != number by {
            assert(rest[j] == keys[j + 1]);
        }
        lemma_no_unit_of_player(sessions, rest, number);
    }
}

// ---------------------------------------------------------------------------
// Datagrams.

/// A datagram of the framework asks who is there, or registers itself with the number of a
/// connection in six bytes in all; every other one of the framework is passed over. What is
/// not of the framework is for the game.
pub proof fn law_datagrams_byte_by_byte(data: Seq<u8>)
    ensures
        ({
            let of_framework = data.len() >= 2 && data[0] == 0xFE;
            let action = datagram_action(data);
            &&& action == DatagramAction::Route <==> !of_framework
            &&& action == DatagramAction::Discovery <==> of_framework && data[1] == 1
            &&& action == DatagramAction::MalformedRegistration <==> of_framework && data[1] == 3
                && data.len() != 6
            &&& action == DatagramAction::Ignore <==> of_framework && data[1] != 1 && data[1] != 3
            &&& action is Register <==> of_framework && data[1] == 3 && data.len() == 6
            &&& (action matches DatagramAction::Register(id) ==> (id - quad_at(data, 2))
                % 0x1_0000_0000 == 0)
        }),
{
    if data.len() == 6 {
        lemma_of_quad(data.skip(2));
        assert(quad_at(data.skip(2), 0) == quad_at(data, 2));
    }
}

/// A registration binds datagrams to the connection with its number, if that is there, comes
/// from the same address and has none yet. It says which of these fails, in this order. No
/// other connection changes, and nothing but where datagrams come from.
pub proof fn law_registration_needs_the_same_address(
    connections: Map<i32, PendingConnection>,
    id: i32,
    source: Endpoint,
    other: i32,
)
    ensures
        ({
            let known = connections.dom().contains(id);
            let same = connections[id].ip@ == source.ip@;
            let free = connections[id].udp_endpoint is None;
            let outcome = registration(connections, id, source);
            let after = after_registration(connections, id, source);
            &&& outcome == RegisterUdpOutcome::UnknownId <==> !known
            &&& outcome == RegisterUdpOutcome::IpMismatch <==> known && !same
            &&& outcome == RegisterUdpOutcome::AlreadyBound <==> known && same && !free
            &&& outcome == RegisterUdpOutcome::Bound <==> known && same && free
            &&& after.dom() == connections.dom()
            &&& known && same && free ==> after[id].udp_endpoint == Some(source) && after[id] == (
            PendingConnection { udp_endpoint: after[id].udp_endpoint, ..connections[id] })
            &&& !(known && same && free) ==> after == connections
            &&& other != id ==> after[other] == connections[other]
            &&& has_endpoint(after, id) <==> has_endpoint(connections, id) || (known && same
                && free)
        }),
{
    assert(after_registration(connections, id, source).dom() =~= connections.dom());
}

/// A bound registration is confirmed to the connection itself, not by datagram and so that it
/// is not dropped, and no other registration is.
pub proof fn law_registration_is_confirmed(outcome: RegisterUdpOutcome, id: i32)
    ensures
        registration_answer(outcome, id) is Some <==> outcome == RegisterUdpOutcome::Bound,
        registration_answer(outcome, id) matches Some(order) ==> {
            &&& order.connection == id
            &&& order.critical
            &&& order.force_tcp
            &&& order.frame == seq![0u8, 6u8, 0xFEu8, 3u8, 0u8, 0u8, 0u8, 0u8]
        },
{
    assert(confirmation() =~= seq![0u8, 6u8, 0xFEu8, 3u8, 0u8, 0u8, 0u8, 0u8]);
}

/// Datagrams are bound by address and port, both.
pub proof fn law_bound_by_address_and_port(connection: PendingConnection, source: Endpoint)
    ensures
        bound_to(connection, source) <==> connection.udp_endpoint is Some
            && connection.udp_endpoint.unwrap().ip@ == source.ip@
            && connection.udp_endpoint.unwrap().port == source.port,
{
}

/// A datagram goes to the first connection that it is bound to.
pub proof fn law_first_bound_connection(
    connections: Map<i32, PendingConnection>,
    keys: Seq<i32>,
    source: Endpoint,
    i: int,
)
    requires
        0 <= i < keys.len(),
        bound_to(connections[keys[i]], source),
        forall|j: int| 0 <= j < i ==> !bound_to(connections[#[trigger] keys[j]], source),
    ensures
        first_bound(connections, keys, source) == Some(keys[i]),
    decreases keys.len(),
{
    if i > 0 {
        let rest = keys.skip(1);
        assert(!bound_to(connections[keys[0]], source));
        assert forall|j: int| 0 <= j < i - 1 implies !bound_to(
            connections[#[trigger] rest[j]],
            source,
        ) by {
            assert(rest[j] == keys[j + 1]);
        }
        assert(rest[i - 1] == keys[i]);
        law_first_bound_connection(connections, rest, source, i - 1);
    }
}

// ---------------------------------------------------------------------------
// Frames on their way.

/// A frame may go by datagram when nothing forbids it, its first two bytes count the rest,
/// its packet is one of the twelve that may get lost, and the connection has an address for
/// datagrams and a socket. What goes is the frame without its first two bytes.
pub proof fn law_which_frames_go_by_datagram(
    connection: PendingConnection,
    frame: Seq<u8>,
    force_tcp: bool,
)
    ensures
        prefers_datagram(connection, frame, force_tcp) <==> {
            &&& !force_tcp
            &&& frame.len() >= 3
            &&& pair_at(frame, 0) == frame.len() - 2
            &&& connection.udp_endpoint is Some
            &&& connection.udp_socket
            &&& frame[2] == 49 || frame[2] == 141 || frame[2] == 14 || frame[2] == 37 || frame[2]
                == 165 || frame[2] == 143 || frame[2] == 152 || frame[2] == 29 || frame[2] == 27
                || frame[2] == 95 || frame[2] == 148 || frame[2] == 41
        },
        tcp_body(frame) is Some <==> frame.len() >= 3 && pair_at(frame, 0) == frame.len() - 2
            && frame[2] != 0xFE,
        tcp_body(frame) matches Some(body) ==> body == frame.skip(2),
{
    if frame.len() >= 3 {
        assert(frame.skip(2)[0] == frame[2]);
    }
}

/// A frame is tried by datagram first where it may go so, and through the queue otherwise and
/// where the datagram failed; the answer of the queue is the end of it.
pub proof fn law_steps_of_a_frame(
    connection: PendingConnection,
    frame: Seq<u8>,
    force_tcp: bool,
    answer: SendResult,
)
    ensures
        prefers_datagram(connection, frame, force_tcp) ==> next_step(
            connection,
            frame,
            force_tcp,
            Tried::Nothing,
        ) == StepView::Datagram(frame.skip(2)),
        !prefers_datagram(connection, frame, force_tcp) ==> next_step(
            connection,
            frame,
            force_tcp,
            Tried::Nothing,
        ) == StepView::Queue(frame),
        next_step(connection, frame, force_tcp, (Tried::Datagram { sent: true }))
            == StepView::Done(Outcome::Datagram),
        next_step(connection, frame, force_tcp, (Tried::Datagram { sent: false }))
            == StepView::Queue(frame),
        next_step(connection, frame, force_tcp, (Tried::Queue { answer: SendResult::Sent }))
            == StepView::Done(Outcome::Queued),
        next_step(connection, frame, force_tcp, (Tried::Queue { answer: SendResult::Full }))
            == StepView::Done(Outcome::Dropped),
        next_step(connection, frame, force_tcp, (Tried::Queue { answer: SendResult::Closed }))
            == StepView::Done(Outcome::Closed),
        queue_answer(outcome_of(answer)) == answer,
{
}

/// Exactly what became of a frame is counted: one more queued, or one more dropped and one
/// more critical drop for a critical frame. Everything else of the connection stays.
pub proof fn law_frames_are_counted(
    connection: PendingConnection,
    critical: bool,
    o: Outcome,
    body: Seq<u8>,
)
    requires
        connection.outbound_queued < u64::MAX,
        connection.outbound_drops < u64::MAX,
        connection.critical_drops < u64::MAX,
    ensures
        ({
            let after = after_send_step(connection, critical, StepView::Done(o));
            &&& after.outbound_queued == connection.outbound_queued + if o == Outcome::Queued {
                1int
            } else {
                0
            }
            &&& after.outbound_drops == connection.outbound_drops + if o == Outcome::Dropped {
                1int
            } else {
                0
            }
            &&& after.critical_drops == connection.critical_drops + if o == Outcome::Dropped
                && critical {
                1int
            } else {
                0
            }
            &&& after.ip == connection.ip && after.player_name == connection.player_name
            &&& after.udp_endpoint == connection.udp_endpoint && after.udp_socket
                == connection.udp_socket
        }),
        after_send_step(connection, critical, StepView::Datagram(body)) == connection,
        after_send_step(connection, critical, StepView::Queue(body)) == connection,
        counted(u64::MAX) == 0,
{
}

/// A broadcast sends the same frame to everyone that it is meant for; it may be dropped and
/// may go by datagram.
pub proof fn law_broadcast_is_one_frame(ids: Seq<i32>, frame: Seq<u8>, i: int)
    requires
        0 <= i < ids.len(),
    ensures
        broadcast_orders(ids, frame).len() == ids.len(),
        broadcast_orders(ids, frame)[i].connection == ids[i],
        broadcast_orders(ids, frame)[i].frame == frame,
        !broadcast_orders(ids, frame)[i].critical,
        !broadcast_orders(ids, frame)[i].force_tcp,
{
}

/// A frame for one connection goes to that connection as it is, and never by datagram.
pub proof fn law_direct_frames_go_through_the_queue(
    id: i32,
    frame: Seq<u8>,
    critical: bool,
    connection: PendingConnection,
    answer: SendResult,
)
    ensures
        direct_order(id, frame, critical).connection == id,
        direct_order(id, frame, critical).frame == frame,
        direct_order(id, frame, critical).critical == critical,
        next_step(
            connection,
            frame,
            direct_order(id, frame, critical).force_tcp,
            Tried::Nothing,
        ) == StepView::Queue(frame),
        queue_step(frame, None) == StepView::Queue(frame),
        queue_step(frame, Some(SendResult::Sent)) == StepView::Done(Outcome::Queued),
        queue_step(frame, Some(SendResult::Full)) == StepView::Done(Outcome::Dropped),
        queue_step(frame, Some(SendResult::Closed)) == StepView::Done(Outcome::Closed),
{
}

/// A connection has its own address, and one that is not there has none.
pub proof fn law_addresses(connections: Map<i32, PendingConnection>, id: i32)
    ensures
        connections.dom().contains(id) ==> address_of(connections, id) == connections[id].ip@,
        !connections.dom().contains(id) ==> address_of(connections, id).len() == 0,
{
}

/// A server ticks at least once in a second, and otherwise as often as it is told.
pub proof fn law_ticks(tps: u32)
    ensures
        usable_tps(tps) >= 1,
        tps >= 1 ==> usable_tps(tps) == tps,
{
}

} // verus!
