//! Outbound delivery: completed frames go to connections by datagram or through their
//! queue.
//!
//! Game logic hands frames to a [`FrameEmit`] and never holds a socket. Nothing is sent from
//! here: what is to be sent, and by which way, is returned as plain values, and the answers of
//! sockets and queues come back as arguments.

use crate::codec::{be16, lemma_be16_round_trip, of_be16, slice_to_vec};
use crate::protocol::{packet_unreliable, unreliable_packets};
use crate::registry::Registry;
use crate::wire::{framed, FRAMEWORK_MESSAGE};
use vstd::prelude::*;

verus! {

// ---------------------------------------------------------------------------
// Connections.

/// An address and a port.
#[derive(Debug)]
pub struct Endpoint {
    pub ip: String,
    pub port: u16,
}

/// A connection as far as delivery and registration know it.
pub struct PendingConnection {
    pub ip: String,
    pub player_name: Option<String>,
    /// Where datagrams go, once the client has registered.
    pub udp_endpoint: Option<Endpoint>,
    /// Whether there is a socket for datagrams.
    pub udp_socket: bool,
    pub outbound_queued: u64,
    pub outbound_drops: u64,
    pub critical_drops: u64,
}

/// The next value of a counter that wraps around.
pub open spec fn counted(n: u64) -> u64 {
    if n == u64::MAX { 0 } else { (n + 1) as u64 }
}

fn count(n: u64) -> (r: u64)
    ensures
        r == counted(n),
{
    if n == u64::MAX { 0 } else { n + 1 }
}

/// What a queue says to a frame.
#[derive(Clone, Copy, Debug, PartialEq, Eq, Structural)]
pub enum SendResult {
    Sent,
    Full,
    Closed,
}

/// What became of a frame.
#[derive(Clone, Copy, Debug, PartialEq, Eq, Structural)]
pub enum Outcome {
    /// It left as a datagram.
    Datagram,
    /// It is in the queue of the connection.
    Queued,
    /// The queue was full; the drop was counted.
    Dropped,
    /// The connection is closed.
    Closed,
}

/// The queue's answer behind an outcome.
pub open spec fn queue_answer(o: Outcome) -> SendResult {
    match o {
        Outcome::Queued => SendResult::Sent,
        Outcome::Dropped => SendResult::Full,
        _ => SendResult::Closed,
    }
}

// ---------------------------------------------------------------------------
// The way of a frame.

/// The call inside a TCP frame, without the length: there is one where the length is that
/// of what follows and what follows is no message of the framework.
pub open spec fn tcp_body(frame: Seq<u8>) -> Option<Seq<u8>> {
    if frame.len() >= 3 && of_be16(frame) + 2 == frame.len() && frame[2] != FRAMEWORK_MESSAGE {
        Some(frame.skip(2))
    } else {
        None
    }
}

/// The call inside a TCP frame. Keep-alives, registrations and frames without a fitting
/// length have none.
pub fn generated_tcp_body(frame: &[u8]) -> (r: Option<&[u8]>)
    ensures
        match tcp_body(frame@) {
            Some(body) => r matches Some(out) && out@ == body,
            None => r is None,
        },
{
    if frame.len() < 3 {
        return None;
    }
    let prefix: usize = frame[0] as usize * 0x100 + frame[1] as usize;
    if prefix + 2 != frame.len() || frame[2] == FRAMEWORK_MESSAGE {
        return None;
    }
    let (_, body) = frame.split_at(2);
    assert(body@ =~= frame@.skip(2));
    Some(body)
}

/// Whether a frame is to be tried as a datagram: it need not be delivered, nobody insists
/// on TCP, and the client has registered an endpoint.
pub open spec fn prefers_datagram(
    connection: PendingConnection,
    frame: Seq<u8>,
    force_tcp: bool,
) -> bool {
    &&& !force_tcp
    &&& tcp_body(frame) matches Some(body) && unreliable_packets().contains(body[0])
    &&& connection.udp_endpoint is Some
    &&& connection.udp_socket
}

/// The connection after a frame: queued frames and drops are counted.
pub open spec fn after_frame(
    connection: PendingConnection,
    critical: bool,
    o: Outcome,
) -> PendingConnection {
    match o {
        Outcome::Queued => PendingConnection {
            outbound_queued: counted(connection.outbound_queued),
            ..connection
        },
        Outcome::Dropped => PendingConnection {
            outbound_drops: counted(connection.outbound_drops),
            critical_drops: if critical {
                counted(connection.critical_drops)
            } else {
                connection.critical_drops
            },
            ..connection
        },
        _ => connection,
    }
}

/// The datagram that is to be tried first with a frame, if any.
pub fn route_outbound(connection: &PendingConnection, frame: &Vec<u8>, force_tcp: bool) -> (r:
    Option<Vec<u8>>)
    ensures
        r is Some <==> prefers_datagram(*connection, frame@, force_tcp),
        r matches Some(body) ==> tcp_body(frame@) == Some(body@),
{
    if force_tcp || connection.udp_endpoint.is_none() || !connection.udp_socket {
        return None;
    }
    match generated_tcp_body(frame.as_slice()) {
        Some(body) => if packet_unreliable(body[0]) {
            Some(slice_to_vec(body))
        } else {
            None
        },
        None => None,
    }
}

/// Counts the answer of the queue to a frame and says what became of the frame.
pub fn after_queue(connection: &mut PendingConnection, critical: bool, answer: SendResult) -> (o:
    Outcome)
    ensures
        queue_answer(o) == answer,
        o != Outcome::Datagram,
        *final(connection) == after_frame(*old(connection), critical, o),
{
    match answer {
        SendResult::Sent => {
            connection.outbound_queued = count(connection.outbound_queued);
            Outcome::Queued
        },
        SendResult::Full => {
            connection.outbound_drops = count(connection.outbound_drops);
            if critical {
                connection.critical_drops = count(connection.critical_drops);
            }
            Outcome::Dropped
        },
        SendResult::Closed => Outcome::Closed,
    }
}

/// What has been tried with a frame so far.
#[derive(Clone, Copy, Debug, PartialEq, Eq, Structural)]
pub enum Tried {
    Nothing,
    /// The datagram was handed to the socket.
    Datagram { sent: bool },
    /// The frame was handed to the queue.
    Queue { answer: SendResult },
}

/// What is to be done next with a frame. Nothing else is to be sent.
#[derive(Debug, PartialEq, Eq)]
pub enum SendStep {
    /// Hand this to the datagram socket.
    Datagram(Vec<u8>),
    /// Hand this to the queue of the connection.
    Queue(Vec<u8>),
    /// Send nothing more.
    Done(Outcome),
}

/// The contents of a [`SendStep`].
pub enum StepView {
    Datagram(Seq<u8>),
    Queue(Seq<u8>),
    Done(Outcome),
}

impl View for SendStep {
    type V = StepView;

    open spec fn view(&self) -> StepView {
        match self {
            SendStep::Datagram(body) => StepView::Datagram(body@),
            SendStep::Queue(frame) => StepView::Queue(frame@),
            SendStep::Done(o) => StepView::Done(*o),
        }
    }
}

/// What became of a frame that was handed to the queue.
pub open spec fn outcome_of(answer: SendResult) -> Outcome {
    match answer {
        SendResult::Sent => Outcome::Queued,
        SendResult::Full => Outcome::Dropped,
        SendResult::Closed => Outcome::Closed,
    }
}

/// What is to be done next with a frame: a datagram is tried first where the rule allows it,
/// the queue is tried where there was no datagram or it could not be sent, and that is all.
pub open spec fn next_step(
    connection: PendingConnection,
    frame: Seq<u8>,
    force_tcp: bool,
    tried: Tried,
) -> StepView {
    match tried {
        Tried::Nothing => if prefers_datagram(connection, frame, force_tcp) {
            StepView::Datagram(tcp_body(frame).unwrap())
        } else {
            StepView::Queue(frame)
        },
        Tried::Datagram { sent } => if sent {
            StepView::Done(Outcome::Datagram)
        } else {
            StepView::Queue(frame)
        },
        Tried::Queue { answer } => StepView::Done(outcome_of(answer)),
    }
}

/// The connection after a step: what became of a frame is counted at its end.
pub open spec fn after_send_step(
    connection: PendingConnection,
    critical: bool,
    step: StepView,
) -> PendingConnection {
    match step {
        StepView::Done(o) => after_frame(connection, critical, o),
        _ => connection,
    }
}

/// Sends one frame to a connection, step by step: it is called with what has been tried, and
/// says what to do next. Calls that need not be delivered go as datagrams when the client has
/// registered, unless `force_tcp`. Without an endpoint, or when the datagram cannot be sent,
/// the frame goes to the queue.
pub fn enqueue_outbound_routed(
    connection: &mut PendingConnection,
    frame: &Vec<u8>,
    critical: bool,
    force_tcp: bool,
    tried: Tried,
) -> (step: SendStep)
    ensures
        step@ == next_step(*old(connection), frame@, force_tcp, tried),
        *final(connection) == after_send_step(*old(connection), critical, step@),
{
    match tried {
        Tried::Nothing => match route_outbound(connection, frame, force_tcp) {
            Some(body) => SendStep::Datagram(body),
            None => SendStep::Queue(slice_to_vec(frame.as_slice())),
        },
        Tried::Datagram { sent } => if sent {
            SendStep::Done(Outcome::Datagram)
        } else {
            SendStep::Queue(slice_to_vec(frame.as_slice()))
        },
        Tried::Queue { answer } => SendStep::Done(after_queue(connection, critical, answer)),
    }
}

/// What comes next for a frame that goes through the queue, before and after its answer.
pub open spec fn queue_step(frame: Seq<u8>, answer: Option<SendResult>) -> StepView {
    match answer {
        None => StepView::Queue(frame),
        Some(answer) => StepView::Done(outcome_of(answer)),
    }
}

/// Queues one frame for a connection, whatever it holds: without an answer the frame is to be
/// handed to the queue, and with the answer it is done.
pub fn enqueue_outbound(
    connection: &mut PendingConnection,
    frame: &Vec<u8>,
    critical: bool,
    answer: Option<SendResult>,
) -> (step: SendStep)
    ensures
        step@ == queue_step(frame@, answer),
        *final(connection) == after_send_step(*old(connection), critical, step@),
{
    let tried = match answer {
        None => Tried::Nothing,
        Some(answer) => Tried::Queue { answer },
    };
    enqueue_outbound_routed(connection, frame, critical, true, tried)
}

// ---------------------------------------------------------------------------
// Orders.

/// One frame for one connection, and how it is to be sent.
#[derive(Debug, PartialEq, Eq)]
pub struct Outgoing {
    pub connection: i32,
    pub frame: Vec<u8>,
    /// Whether a drop of the frame is counted as critical.
    pub critical: bool,
    pub force_tcp: bool,
}

/// The contents of an [`Outgoing`].
pub struct OutgoingView {
    pub connection: i32,
    pub frame: Seq<u8>,
    pub critical: bool,
    pub force_tcp: bool,
}

impl View for Outgoing {
    type V = OutgoingView;

    open spec fn view(&self) -> OutgoingView {
        OutgoingView {
            connection: self.connection,
            frame: self.frame@,
            critical: self.critical,
            force_tcp: self.force_tcp,
        }
    }
}

pub open spec fn orders_of(list: Seq<Outgoing>) -> Seq<OutgoingView> {
    Seq::new(list.len(), |i: int| list[i]@)
}

/// The next step of an order. There is none where the connection is gone; nothing is sent then.
pub fn order_step(
    connections: &mut Registry<PendingConnection>,
    order: &Outgoing,
    tried: Tried,
) -> (step: Option<SendStep>)
    requires
        old(connections).wf(),
    ensures
        final(connections).wf(),
        final(connections).spec_keys() == old(connections).spec_keys(),
        step is Some <==> old(connections)@.dom().contains(order.connection),
        step is None ==> final(connections)@ == old(connections)@,
        step matches Some(step) ==> {
            let before = old(connections)@[order.connection];
            &&& step@ == next_step(before, order.frame@, order.force_tcp, tried)
            &&& final(connections)@ == old(connections)@.insert(
                order.connection,
                after_send_step(before, order.critical, step@),
            )
        },
{
    match connections.get_mut(order.connection) {
        Some(connection) => Some(
            enqueue_outbound_routed(
                connection,
                &order.frame,
                order.critical,
                order.force_tcp,
                tried,
            ),
        ),
        None => None,
    }
}

/// The order for one connection. It goes through the queue.
pub open spec fn direct_order(connection: i32, frame: Seq<u8>, critical: bool) -> OutgoingView {
    OutgoingView { connection, frame, critical, force_tcp: true }
}

/// The orders for a frame that is to be queued for one connection: one, or none where the
/// connection is gone.
pub fn order_for(
    connections: &Registry<PendingConnection>,
    connection: i32,
    frame: &Vec<u8>,
    critical: bool,
) -> (r: Option<Outgoing>)
    requires
        connections.wf(),
    ensures
        r is Some <==> connections@.dom().contains(connection),
        r matches Some(order) ==> order@ == direct_order(connection, frame@, critical),
{
    if connections.contains_key(connection) {
        Some(
            Outgoing {
                connection,
                frame: slice_to_vec(frame.as_slice()),
                critical,
                force_tcp: true,
            },
        )
    } else {
        None
    }
}

/// Who gets a broadcast, in the order of the registry: everyone but the excluded one.
pub open spec fn receivers(keys: Seq<i32>, excluded: Option<i32>) -> Seq<i32> {
    keys.filter(|id: i32| excluded != Some(id))
}

/// The orders of a broadcast. Such a frame may go as a datagram, and no drop is critical.
pub open spec fn broadcast_orders(ids: Seq<i32>, frame: Seq<u8>) -> Seq<OutgoingView> {
    Seq::new(
        ids.len(),
        |i: int|
            OutgoingView { connection: ids[i], frame, critical: false, force_tcp: false },
    )
}

fn broadcast_where(
    connections: &Registry<PendingConnection>,
    excluded: Option<i32>,
    frame: &Vec<u8>,
) -> (r: Vec<Outgoing>)
    requires
        connections.wf(),
    ensures
        orders_of(r@) == broadcast_orders(receivers(connections.spec_keys(), excluded), frame@),
{
    let keys = connections.keys();
    let ghost meant = |id: i32| excluded != Some(id);
    let mut r: Vec<Outgoing> = Vec::new();
    let mut i: usize = 0;
    proof {
        reveal(Seq::filter);
        assert(keys@.take(0).filter(meant) =~= Seq::empty());
        assert(orders_of(r@) =~= broadcast_orders(keys@.take(0).filter(meant), frame@));
    }
    while i < keys.len()
        invariant
            i <= keys@.len(),
            meant == (|id: i32| excluded != Some(id)),
            orders_of(r@) == broadcast_orders(keys@.take(i as int).filter(meant), frame@),
        decreases keys@.len() - i,
    {
        let ghost so_far = r@;
        let ghost ids = keys@.take(i as int).filter(meant);
        proof {
            reveal(Seq::filter);
            assert(keys@.take(i + 1).drop_last() =~= keys@.take(i as int));
        }
        let skip: bool = match excluded {
            Some(other) => other == keys[i],
            None => false,
        };
        if !skip {
            r.push(
                Outgoing {
                    connection: keys[i],
                    frame: slice_to_vec(frame.as_slice()),
                    critical: false,
                    force_tcp: false,
                },
            );
            assert(orders_of(r@) =~= orders_of(so_far).push(r@.last()@));
            assert(broadcast_orders(ids.push(keys@[i as int]), frame@) =~= broadcast_orders(
                ids,
                frame@,
            ).push(r@.last()@));
        }
        i += 1;
    }
    assert(keys@.take(i as int) =~= keys@);
    r
}

/// The orders for a frame to every connection.
pub fn broadcast(connections: &Registry<PendingConnection>, frame: &Vec<u8>) -> (r: Vec<Outgoing>)
    requires
        connections.wf(),
    ensures
        orders_of(r@) == broadcast_orders(receivers(connections.spec_keys(), None), frame@),
{
    broadcast_where(connections, None, frame)
}

/// The orders for a frame to every connection but one.
pub fn broadcast_except(
    connections: &Registry<PendingConnection>,
    excluded: i32,
    frame: &Vec<u8>,
) -> (r: Vec<Outgoing>)
    requires
        connections.wf(),
    ensures
        orders_of(r@) == broadcast_orders(
            receivers(connections.spec_keys(), Some(excluded)),
            frame@,
        ),
{
    broadcast_where(connections, Some(excluded), frame)
}

// ---------------------------------------------------------------------------
// The port for game logic.

/// Where game logic hands its frames. What sends them implements this for the live
/// connections, order by order; [`NOOP`] drops everything.
pub trait FrameEmit {
    fn broadcast(&self, frame: Vec<u8>);

    /// Returns whether the frame is in the queue of the connection.
    fn enqueue_to(&self, connection_id: i32, frame: Vec<u8>, critical: bool) -> (sent: bool);

    /// The connections that there are.
    fn connection_ids(&self) -> Vec<i32>;

    /// The address of a connection, empty where there is none. A sink that knows no
    /// addresses need not say more.
    fn connection_ip(&self, connection_id: i32) -> (ip: String)
        default_ensures
            ip@ == Seq::<char>::empty(),
    {
        String::new()
    }
}

/// A sink that drops every frame.
pub struct NoopEmit;

pub const NOOP: NoopEmit = NoopEmit;

impl FrameEmit for NoopEmit {
    fn broadcast(&self, frame: Vec<u8>) {
    }

    fn enqueue_to(&self, connection_id: i32, frame: Vec<u8>, critical: bool) -> (r: bool)
        ensures
            r,
    {
        true
    }

    fn connection_ids(&self) -> (r: Vec<i32>)
        ensures
            r@ == Seq::<i32>::empty(),
    {
        Vec::new()
    }
}

/// The address of a connection, empty where there is none.
pub open spec fn address_of(connections: Map<i32, PendingConnection>, id: i32) -> Seq<char> {
    if connections.dom().contains(id) { connections[id].ip@ } else { Seq::empty() }
}

/// The address of a connection, empty where there is none.
pub fn ip_of(connections: &Registry<PendingConnection>, connection_id: i32) -> (r: String)
    requires
        connections.wf(),
    ensures
        r@ == address_of(connections@, connection_id),
{
    match connections.get(connection_id) {
        Some(connection) => connection.ip.clone(),
        None => String::new(),
    }
}

// ---------------------------------------------------------------------------
// Laws.

/// What is framed is found again: the body of the frame of a call begins with its number
/// and ends with its payload. The number of the framework's own messages is no call.
pub proof fn law_framed_call_has_a_body(id: u8, payload: Seq<u8>)
    requires
        payload.len() + 4 <= 0xFFFF,
        id != FRAMEWORK_MESSAGE,
    ensures
        framed(id, payload) matches Ok(frame) && tcp_body(frame) == Some(
            seq![id] + be16(payload.len() as u16) + seq![0u8] + payload,
        ) && tcp_body(frame).unwrap()[0] == id,
{
    let body = seq![id] + be16(payload.len() as u16) + seq![0u8] + payload;
    let frame = be16((payload.len() + 4) as u16) + body;
    lemma_be16_round_trip((payload.len() + 4) as u16, body);
    assert(frame.skip(2) =~= body);
}

/// A message of the framework has no call in it, whatever its length says, so it never
/// leaves as a datagram.
pub proof fn law_framework_frames_have_no_body(
    connection: PendingConnection,
    frame: Seq<u8>,
    force_tcp: bool,
)
    requires
        frame.len() >= 3,
        frame[2] == FRAMEWORK_MESSAGE,
    ensures
        tcp_body(frame) is None,
        !prefers_datagram(connection, frame, force_tcp),
{
}

/// The steps of a frame from its first to its last, given how the socket and the queue answer
/// when they are asked.
pub open spec fn way_of(
    connection: PendingConnection,
    frame: Seq<u8>,
    force_tcp: bool,
    sent: bool,
    answer: SendResult,
) -> Seq<StepView> {
    way_from(connection, frame, force_tcp, Tried::Nothing, sent, answer)
}

pub open spec fn way_from(
    connection: PendingConnection,
    frame: Seq<u8>,
    force_tcp: bool,
    tried: Tried,
    sent: bool,
    answer: SendResult,
) -> Seq<StepView>
    decreases tries_left(tried),
{
    let step = next_step(connection, frame, force_tcp, tried);
    let then = match step {
        StepView::Datagram(_) => Tried::Datagram { sent },
        _ => Tried::Queue { answer },
    };
    if step is Done || tries_left(then) >= tries_left(tried) {
        seq![step]
    } else {
        seq![step] + way_from(connection, frame, force_tcp, then, sent, answer)
    }
}

/// How much can be tried with a frame yet.
pub open spec fn tries_left(tried: Tried) -> nat {
    match tried {
        Tried::Nothing => 2,
        Tried::Datagram { .. } => 1,
        Tried::Queue { .. } => 0,
    }
}

/// A frame takes one way. A datagram is tried once, and only where the rule allows it; after
/// one that was sent the queue is left alone, and otherwise the whole frame is handed to the
/// queue once. Nothing else is sent, and the last step says what became of the frame.
pub proof fn law_one_way(
    connection: PendingConnection,
    frame: Seq<u8>,
    force_tcp: bool,
    sent: bool,
    answer: SendResult,
)
    ensures
        ({
            let way = way_of(connection, frame, force_tcp, sent, answer);
            let queue = seq![StepView::Queue(frame), StepView::Done(outcome_of(answer))];
            if !prefers_datagram(connection, frame, force_tcp) {
                way == queue
            } else {
                let datagram = StepView::Datagram(tcp_body(frame).unwrap());
                if sent {
                    way == seq![datagram, StepView::Done(Outcome::Datagram)]
                } else {
                    way == seq![datagram] + queue
                }
            }
        }),
{
    reveal_with_fuel(way_from, 3);
    let way = way_of(connection, frame, force_tcp, sent, answer);
    let queue = seq![StepView::Queue(frame), StepView::Done(outcome_of(answer))];
    assert(way_from(connection, frame, force_tcp, Tried::Datagram { sent: false }, sent, answer)
        =~= queue);
    if !prefers_datagram(connection, frame, force_tcp) {
        assert(way =~= queue);
    } else {
        let datagram = StepView::Datagram(tcp_body(frame).unwrap());
        if sent {
            assert(way =~= seq![datagram, StepView::Done(Outcome::Datagram)]);
        } else {
            assert(way =~= seq![datagram] + queue);
        }
    }
}

/// A frame that is to go by TCP, or goes to a client without an endpoint, is never handed to
/// the datagram socket.
pub proof fn law_tcp_frames_stay_on_tcp(
    connection: PendingConnection,
    frame: Seq<u8>,
    force_tcp: bool,
    tried: Tried,
)
    requires
        force_tcp || connection.udp_endpoint is None,
    ensures
        !(next_step(connection, frame, force_tcp, tried) is Datagram),
{
}

/// No frame is lost in silence: it left as a datagram, or the queue took it and it is counted,
/// or the queue was full and the drop is counted, or the connection is closed.
pub proof fn law_no_silent_drop(
    connection: PendingConnection,
    frame: Seq<u8>,
    critical: bool,
    force_tcp: bool,
    sent: bool,
    answer: SendResult,
)
    ensures
        ({
            let last = way_of(connection, frame, force_tcp, sent, answer).last();
            let after = after_send_step(connection, critical, last);
            &&& last is Done
            &&& match last->Done_0 {
                Outcome::Datagram => sent && prefers_datagram(connection, frame, force_tcp)
                    && after == connection,
                Outcome::Queued => answer == SendResult::Sent && after.outbound_queued == counted(
                    connection.outbound_queued,
                ),
                Outcome::Dropped => answer == SendResult::Full && after.outbound_drops == counted(
                    connection.outbound_drops,
                ) && (critical ==> after.critical_drops == counted(connection.critical_drops)),
                Outcome::Closed => answer == SendResult::Closed && after == connection,
            }
        }),
{
    law_one_way(connection, frame, force_tcp, sent, answer);
}

/// A broadcast reaches every connection but the excluded one, each once, and nobody else.
pub proof fn law_broadcast_reaches_the_others(
    keys: Seq<i32>,
    excluded: Option<i32>,
    frame: Seq<u8>,
    id: i32,
)
    requires
        keys.no_duplicates(),
    ensures
        receivers(keys, excluded).no_duplicates(),
        receivers(keys, excluded).contains(id) <==> keys.contains(id) && excluded != Some(id),
        (exists|i: int|
            0 <= i < broadcast_orders(receivers(keys, excluded), frame).len()
                && (#[trigger] broadcast_orders(receivers(keys, excluded), frame)[i]).connection
                == id) <==> keys.contains(id) && excluded != Some(id),
{
    lemma_receivers(keys, excluded);
    let ids = receivers(keys, excluded);
    let orders = broadcast_orders(ids, frame);
    assert(ids.contains(id) <==> keys.contains(id) && excluded != Some(id));
    if ids.contains(id) {
        let i = choose|i: int| 0 <= i < ids.len() && ids[i] == id;
        assert(orders[i].connection == id);
    }
    if exists|i: int| 0 <= i < orders.len() && (#[trigger] orders[i]).connection == id {
        let i = choose|i: int| 0 <= i < orders.len() && (#[trigger] orders[i]).connection == id;
        assert(ids[i] == id);
    }
}

proof fn lemma_receivers(keys: Seq<i32>, excluded: Option<i32>)
    requires
        keys.no_duplicates(),
    ensures
        receivers(keys, excluded).no_duplicates(),
        forall|id: i32| #[trigger]
            receivers(keys, excluded).contains(id) <==> keys.contains(id) && excluded != Some(id),
    decreases keys.len(),
{
    reveal(Seq::filter);
    let ids = receivers(keys, excluded);
    if keys.len() > 0 {
        let front = keys.drop_last();
        let before = receivers(front, excluded);
        lemma_receivers(front, excluded);
        assert(ids == if excluded != Some(keys.last()) { before.push(keys.last()) } else { before });
        assert(!front.contains(keys.last()));
        assert forall|id: i32| #[trigger] ids.contains(id) <==> keys.contains(id) && excluded
            != Some(id) by {
            assert(keys.contains(id) <==> front.contains(id) || id == keys.last()) by {
                if front.contains(id) {
                    let i = choose|i: int| 0 <= i < front.len() && front[i] == id;
                    assert(keys[i] == id);
                }
                if keys.contains(id) && id != keys.last() {
                    let i = choose|i: int| 0 <= i < keys.len() && keys[i] == id;
                    assert(front[i] == id);
                }
                assert(keys[keys.len() - 1] == keys.last());
            }
            if before.contains(id) {
                let i = choose|i: int| 0 <= i < before.len() && before[i] == id;
                assert(ids[i] == id);
            }
            if ids.contains(id) {
                let i = choose|i: int| 0 <= i < ids.len() && ids[i] == id;
                if i < before.len() {
                    assert(before[i] == id);
                }
            }
            if excluded != Some(keys.last()) {
                assert(ids[ids.len() - 1] == keys.last());
            }
        }
        assert(!before.contains(keys.last()));
    }
}

} // verus!
