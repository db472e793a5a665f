//! The engine: owns every connection of one endpoint, routes inbound
//! datagrams to them, drains and encodes their outgoing packets, and
//! keeps the retransmission schedule. Time and randomness come in as
//! plain values, so every step here is deterministic and verified.

pub mod connection;
pub mod stream;
pub mod stream_buffer;
pub mod timer;
pub mod udp_packet;

use vstd::prelude::*;

use crate::endpoint_role::EndpointRole;
use crate::engine::connection::{
    after_drain, apply_frames, expected_stream_packets, expected_wu_packets, packets_view,
    smodel, streams_model, total_stream_packets, total_wu_packets, Connection, StreamModel,
};
use crate::engine::timer::ScheduledEvent;
use crate::engine::udp_packet::{IncomingUdpPacket, OutgoingUdpPacket, PeerAddress};
use crate::errors::Error;
use crate::frames::FrameView;
use crate::packets::{
    packet_bytes, packet_valid, parse_packet, Packet, PacketView, RegularPacketView,
};
use crate::threaded::timer::{due_of, pending_of, ThreadedTimer};

verus! {

/// Delay before an unacknowledged packet is re-checked for resend.
pub const RESEND_DELAY_MS: u64 = 100;

/// Mathematical image of a staged datagram.
pub struct DatagramView {
    pub dest: PeerAddress,
    pub payload: Seq<u8>,
}

pub open spec fn dgram_views(v: Seq<OutgoingUdpPacket>) -> Seq<DatagramView> {
    Seq::new(
        v.len(),
        |i: int| DatagramView { dest: v[i].destination_address, payload: v[i].payload@ },
    )
}

/// A packet whose frames are all acknowledgments; such packets are not
/// tracked for retransmission.
pub open spec fn ack_only(v: PacketView) -> bool {
    match v {
        PacketView::Regular(p) => forall|i: int|
            0 <= i < p.payload.len() ==> (#[trigger] p.payload[i]) is Ack,
        _ => false,
    }
}

/// The packets of a drain pass that are tracked for retransmission.
pub open spec fn outstanding_views(ps: Seq<PacketView>) -> Seq<PacketView>
    decreases ps.len(),
{
    if ps.len() == 0 {
        Seq::empty()
    } else {
        outstanding_views(ps.drop_last()) + (if !ack_only(ps.last()) {
            seq![ps.last()]
        } else {
            Seq::empty()
        })
    }
}

pub open spec fn pns_of(ps: Seq<PacketView>) -> Seq<u64> {
    Seq::new(ps.len(), |i: int| ps[i]->Regular_0.packet_number)
}

/// Everything one connection hands a flush: its stream-data packets,
/// its window updates, and its queued packets, in order.
pub open spec fn conn_drained_views(c: Connection) -> Seq<PacketView> {
    let m = streams_model(c.streams@);
    let pn0 = c.next_outgoing_packet_number as int;
    expected_stream_packets(m, c.id, pn0) + expected_wu_packets(
        m,
        c.id,
        pn0 + total_stream_packets(m),
    ) + packets_view(c.pending_packets@)
}

/// The datagrams one connection's drain becomes.
pub open spec fn conn_datagrams(c: Connection) -> Seq<DatagramView> {
    Seq::new(
        conn_drained_views(c).len(),
        |i: int|
            DatagramView {
                dest: c.peer_address,
                payload: packet_bytes(conn_drained_views(c)[i]),
            },
    )
}

/// The datagrams a whole flush stages, connections in order.
pub open spec fn flush_datagrams(cs: Seq<Connection>) -> Seq<DatagramView>
    decreases cs.len(),
{
    if cs.len() == 0 {
        Seq::empty()
    } else {
        flush_datagrams(cs.drop_last()) + conn_datagrams(cs.last())
    }
}

/// A connection after one flush: streams drained with their ceilings
/// re-reported, queue emptied, packet numbers advanced, and the
/// non-ack-only drained packet numbers now outstanding.
pub open spec fn conn_after_flush(c: Connection, c2: Connection) -> bool {
    let m0 = streams_model(c.streams@);
    let pn0 = c.next_outgoing_packet_number as int;
    &&& streams_model(c2.streams@) == Seq::new(
        m0.len(),
        |i: int| StreamModel { prev_max: m0[i].buf_next + m0[i].buf_cap, ..after_drain(m0[i]) },
    )
    &&& c2.next_outgoing_packet_number as int == pn0 + total_stream_packets(m0)
        + total_wu_packets(m0)
    &&& c2.pending_packets@ == Seq::<Packet>::empty()
    &&& c2.unacked_packet_numbers@ == c.unacked_packet_numbers@ + pns_of(
        outstanding_views(conn_drained_views(c)),
    )
    &&& c2.id == c.id
    &&& c2.endpoint_role == c.endpoint_role
    &&& c2.last_consecutive_packet_number == c.last_consecutive_packet_number
    &&& c2.peer_address == c.peer_address
    &&& c2.closed == c.closed
}

/// A freshly opened connection in its initial state.
pub open spec fn is_fresh_connection(
    c: Connection,
    id: u64,
    role: EndpointRole,
    addr: PeerAddress,
) -> bool {
    &&& c.id == id
    &&& c.endpoint_role == role
    &&& c.last_consecutive_packet_number == 0
    &&& c.next_outgoing_packet_number == 1
    &&& c.peer_address == addr
    &&& c.pending_packets@ == Seq::<Packet>::empty()
    &&& c.streams@ == Seq::<crate::engine::stream::Stream>::empty()
    &&& c.unacked_packet_numbers@ == Seq::<u64>::empty()
    &&& !c.closed
}

/// Relies on rand's `random`: an arbitrary value of the requested type;
/// nothing can be promised of which one.
#[verifier::external_body]
fn random_u64() -> (r: u64)
{
    rand::random::<u64>()
}

/// The packet a resend event re-presents.
pub open spec fn event_view(e: ScheduledEvent) -> PacketView {
    match e {
        ScheduledEvent::ResendUnackedPacket(p) => p@,
    }
}

/// A resend event's packet is a regular packet that can be encoded.
pub open spec fn event_ok(e: ScheduledEvent) -> bool {
    match e {
        ScheduledEvent::ResendUnackedPacket(p) => packet_valid(p@) && p is Regular,
    }
}

/// The retransmission-tracked packets of a whole flush, connections in
/// order.
pub open spec fn flush_outstanding(cs: Seq<Connection>) -> Seq<PacketView>
    decreases cs.len(),
{
    if cs.len() == 0 {
        Seq::empty()
    } else {
        flush_outstanding(cs.drop_last()) + outstanding_views(conn_drained_views(cs.last()))
    }
}

/// The role decoding assumes: a server while accepting connections.
pub open spec fn role_of(accept: bool) -> EndpointRole {
    if accept {
        EndpointRole::Server
    } else {
        EndpointRole::Client
    }
}

/// A connection after one inbound regular packet, as
/// `Connection::handle_regular_packet` leaves it.
pub open spec fn conn_after_regular(c: Connection, c2: Connection, p: RegularPacketView) -> bool {
    &&& c2.model() == apply_frames(c.model(), p.payload)
    &&& ({
        let advanced = c.last_consecutive_packet_number < u64::MAX && p.packet_number
            == c.last_consecutive_packet_number + 1;
        if advanced {
            &&& c2.last_consecutive_packet_number == p.packet_number
            &&& c2.next_outgoing_packet_number == c.next_outgoing_packet_number + 1
            &&& crate::engine::connection::packets_view(c2.pending_packets@)
                == crate::engine::connection::packets_view(c.pending_packets@).push(
                crate::engine::connection::mk_packet(
                    c.id,
                    c.next_outgoing_packet_number as int,
                    seq![
                        FrameView::Ack(
                            crate::frames::ack::AckFrameView {
                                largest_acknowledged: p.packet_number,
                                ack_delay: 0,
                                first_ack_block_length: 0,
                                extra_ack_blocks: Seq::empty(),
                                first_timestamp: None,
                                extra_timestamps: Seq::empty(),
                            },
                        ),
                    ],
                ),
            )
        } else {
            &&& c2.last_consecutive_packet_number == c.last_consecutive_packet_number
            &&& c2.next_outgoing_packet_number == c.next_outgoing_packet_number
            &&& c2.pending_packets@ == c.pending_packets@
        }
    })
    &&& c2.id == c.id
    &&& c2.endpoint_role == c.endpoint_role
    &&& c2.peer_address == c.peer_address
}

/// What one flush does, from state `e1` to state `e2`: every
/// connection drained as `conn_after_flush` says, one staged datagram
/// per drained packet in order, and a resend check armed at
/// `now_ms + RESEND_DELAY_MS` for each drained packet that is not
/// purely an acknowledgment.
pub open spec fn flush_effect(e1: QuicEngine, e2: QuicEngine, now_ms: int) -> bool {
    &&& dgram_views(e2.pending_packets@) == dgram_views(e1.pending_packets@) + flush_datagrams(
        e1.connections@,
    )
    &&& e2.connections@.len() == e1.connections@.len()
    &&& forall|i: int|
        0 <= i < e1.connections@.len() ==> conn_after_flush(
            e1.connections@[i],
            #[trigger] e2.connections@[i],
        )
    &&& e2.timer.scheduled_items@.len() == e1.timer.scheduled_items@.len() + flush_outstanding(
        e1.connections@,
    ).len()
    &&& forall|i: int|
        0 <= i < e1.timer.scheduled_items@.len() ==> (#[trigger] e2.timer.scheduled_items@[i])
            == e1.timer.scheduled_items@[i]
    &&& forall|k: int|
        0 <= k < flush_outstanding(e1.connections@).len() ==> {
            let item = #[trigger] e2.timer.scheduled_items@[e1.timer.scheduled_items@.len() + k];
            &&& item.fire_at_ms == now_ms + RESEND_DELAY_MS
            &&& event_view(item.event) == flush_outstanding(e1.connections@)[k]
        }
    &&& e2.accept_connections == e1.accept_connections
    &&& e2.new_connection_ids@ == e1.new_connection_ids@
}

/// A connection's packet-number counter has room for one full drain
/// pass: a packet per sendable byte run, fin and window update per
/// stream.
pub open spec fn conn_budget_ok(c: Connection) -> bool {
    c.next_outgoing_packet_number + total_stream_packets(streams_model(c.streams@))
        + c.streams@.len() <= u64::MAX
}

/// The same headroom, for a connection whose streams will look like
/// `ms2` and whose counter may first advance by `extra_pn`.
pub open spec fn budget_with(c: Connection, ms2: Seq<StreamModel>, extra_pn: int) -> bool {
    c.next_outgoing_packet_number + extra_pn + total_stream_packets(ms2) + ms2.len() <= u64::MAX
}

/// The state a freshly accepted connection's frame handling starts
/// from.
pub open spec fn fresh_conn_model() -> crate::engine::connection::ConnModel {
    crate::engine::connection::ConnModel {
        streams: Seq::empty(),
        unacked: Seq::empty(),
        closed: false,
    }
}

/// Whether this datagram reaches a connection (a regular packet with a
/// known id, or an unknown id while accepting), so a flush follows.
pub open spec fn incoming_reaches(e: QuicEngine, packet: IncomingUdpPacket) -> bool {
    match parse_packet(packet.payload@, role_of(e.accept_connections)) {
        Ok(pv) => match pv {
            PacketView::Regular(p) => match p.header.connection_id {
                Some(cid) => (exists|i: int|
                    0 <= i < e.connections@.len() && (#[trigger] e.connections@[i]).id == cid)
                    || e.accept_connections,
                None => false,
            },
            _ => false,
        },
        Err(_) => false,
    }
}

/// The routing step itself, before the flush that follows a handled
/// packet.
pub open spec fn incoming_applied(e1: QuicEngine, e2: QuicEngine, packet: IncomingUdpPacket) -> bool {
    &&& e2.timer == e1.timer
    &&& e2.accept_connections == e1.accept_connections
    &&& e2.pending_packets@ == e1.pending_packets@
    &&& ({
        let parsed = parse_packet(packet.payload@, role_of(e1.accept_connections));
        match parsed {
            Ok(pv) => match pv {
                PacketView::Regular(p) => match p.header.connection_id {
                    Some(cid) => {
                        if exists|i: int|
                            0 <= i < e1.connections@.len() && (#[trigger] e1.connections@[i]).id
                                == cid {
                            &&& e2.connections@.len() == e1.connections@.len()
                            &&& (forall|i: int|
                                0 <= i < e1.connections@.len() ==> if (
                                #[trigger] e1.connections@[i]).id == cid {
                                    conn_after_regular(
                                        e1.connections@[i],
                                        e2.connections@[i],
                                        p,
                                    )
                                } else {
                                    e2.connections@[i] == e1.connections@[i]
                                })
                            &&& e2.new_connection_ids@ == e1.new_connection_ids@
                        } else if e1.accept_connections {
                            &&& e2.connections@.len() == e1.connections@.len() + 1
                            &&& (forall|i: int|
                                0 <= i < e1.connections@.len() ==> (
                                #[trigger] e2.connections@[i]) == e1.connections@[i])
                            &&& exists|c: Connection|
                                is_fresh_connection(
                                    c,
                                    cid,
                                    EndpointRole::Server,
                                    packet.source_address,
                                ) && conn_after_regular(c, #[trigger] e2.connections@.last(), p)
                            &&& e2.new_connection_ids@ == e1.new_connection_ids@.push(cid)
                        } else {
                            &&& e2.connections@ == e1.connections@
                            &&& e2.new_connection_ids@ == e1.new_connection_ids@
                        }
                    },
                    None => e2.connections@ == e1.connections@ && e2.new_connection_ids@
                        == e1.new_connection_ids@,
                },
                _ => e2.connections@ == e1.connections@ && e2.new_connection_ids@
                    == e1.new_connection_ids@,
            },
            Err(_) => e2.connections@ == e1.connections@ && e2.new_connection_ids@
                == e1.new_connection_ids@,
        }
    })
}

/// The packets a batch of due events re-queues on the connection whose
/// id is `cid`: the resend events whose packet carries `cid` and whose
/// packet number is still in `unacked`, in due order.
pub open spec fn resends_for(evs: Seq<ScheduledEvent>, cid: u64, unacked: Seq<u64>) -> Seq<Packet>
    decreases evs.len(),
{
    if evs.len() == 0 {
        Seq::empty()
    } else {
        resends_for(evs.drop_last(), cid, unacked) + (match evs.last() {
            ScheduledEvent::ResendUnackedPacket(p) => match p {
                Packet::Regular(rp) => if rp.header.connection_id == Some(cid)
                    && unacked.contains(rp.packet_number) {
                    seq![p]
                } else {
                    Seq::empty()
                },
                _ => Seq::empty(),
            },
        })
    }
}

/// The timer-service step itself, before the flush that follows it: the
/// due events leave the schedule, and each connection's queue grows by
/// exactly the resend packets addressed to it that are still
/// outstanding.
pub open spec fn due_applied(e1: QuicEngine, e2: QuicEngine, now_ms: int) -> bool {
    &&& e2.timer.scheduled_items@ == pending_of(e1.timer.scheduled_items@, now_ms)
    &&& e2.connections@.len() == e1.connections@.len()
    &&& forall|i: int|
        0 <= i < e1.connections@.len() ==> {
            let c = e1.connections@[i];
            let c2 = #[trigger] e2.connections@[i];
            &&& c2.pending_packets@ == c.pending_packets@ + resends_for(
                due_of(e1.timer.scheduled_items@, now_ms),
                c.id,
                c.unacked_packet_numbers@,
            )
            &&& c2.id == c.id
            &&& c2.endpoint_role == c.endpoint_role
            &&& c2.streams@ == c.streams@
            &&& c2.unacked_packet_numbers@ == c.unacked_packet_numbers@
            &&& c2.last_consecutive_packet_number == c.last_consecutive_packet_number
            &&& c2.next_outgoing_packet_number == c.next_outgoing_packet_number
            &&& c2.peer_address == c.peer_address
            &&& c2.closed == c.closed
        }
    &&& e2.accept_connections == e1.accept_connections
    &&& e2.new_connection_ids@ == e1.new_connection_ids@
    &&& e2.pending_packets@ == e1.pending_packets@
}

/// The engine: every connection of one endpoint, the retransmission
/// schedule, the queue of connections waiting to be accepted, and the
/// datagrams staged for the transport.
#[derive(Debug)]
pub struct QuicEngine {
    pub timer: ThreadedTimer,
    pub accept_connections: bool,
    pub connections: Vec<Connection>,
    pub new_connection_ids: Vec<u64>,
    pub pending_packets: Vec<OutgoingUdpPacket>,
}

impl QuicEngine {
    /// Connections are sound, their ids distinct, and every armed
    /// resend event carries an encodable regular packet.
    pub open spec fn wf(&self) -> bool {
        &&& forall|i: int|
            0 <= i < self.connections@.len() ==> (#[trigger] self.connections@[i]).wf()
        &&& forall|i: int, j: int|
            0 <= i < j < self.connections@.len() ==> (#[trigger] self.connections@[i]).id != (
            #[trigger] self.connections@[j]).id
        &&& forall|i: int|
            0 <= i < self.timer.scheduled_items@.len() ==> event_ok(
                (#[trigger] self.timer.scheduled_items@[i]).event,
            )
    }

    pub fn new(timer: ThreadedTimer, accept_connections: bool) -> (r: QuicEngine)
        requires
            forall|i: int|
                0 <= i < timer.scheduled_items@.len() ==> event_ok(
                    (#[trigger] timer.scheduled_items@[i]).event,
                ),
        ensures
            r.wf(),
            r.timer == timer,
            r.accept_connections == accept_connections,
            r.connections@ == Seq::<Connection>::empty(),
            r.new_connection_ids@ == Seq::<u64>::empty(),
            r.pending_packets@ == Seq::<OutgoingUdpPacket>::empty(),
    {
        QuicEngine {
            timer,
            accept_connections,
            connections: Vec::new(),
            new_connection_ids: Vec::new(),
            pending_packets: Vec::new(),
        }
    }

    /// Index of the connection carrying `connection_id`, if any.
    fn find_connection(&self, connection_id: u64) -> (r: Option<usize>)
        ensures
            match r {
                Some(i) => i < self.connections@.len() && self.connections@[i as int].id
                    == connection_id,
                None => forall|i: int|
                    0 <= i < self.connections@.len() ==> (#[trigger] self.connections@[i]).id
                        != connection_id,
            },
    {
        let mut i: usize = 0;
        while i < self.connections.len()
            invariant
                i <= self.connections@.len(),
                forall|j: int|
                    0 <= j < i ==> (#[trigger] self.connections@[j]).id != connection_id,
            decreases self.connections@.len() - i,
        {
            if self.connections[i].id == connection_id {
                return Some(i);
            }
            i = i + 1;
        }
        None
    }

    /// Open a client connection towards `addr` under a randomly drawn
    /// connection id and hand the id back. A drawn id already in use
    /// replaces that connection, as a fresh map insertion would.
    pub fn initiate_connection(&mut self, addr: PeerAddress) -> (r: u64)
        requires
            old(self).wf(),
        ensures
            final(self).wf(),
            ({
                ||| exists|j: int|
                    0 <= j < old(self).connections@.len() && (#[trigger] old(self).connections@[j]).id == r && final(self).connections@ == old(self).connections@.update(j, final(self).connections@[j]) && is_fresh_connection(
                        final(self).connections@[j],
                        r,
                        EndpointRole::Client,
                        addr,
                    )
                ||| ((forall|j: int|
                    0 <= j < old(self).connections@.len() ==> (#[trigger] old(self).connections@[j]).id != r) && final(self).connections@ == old(self).connections@.push(final(self).connections@.last()) && is_fresh_connection(
                    final(self).connections@.last(),
                    r,
                    EndpointRole::Client,
                    addr,
                ))
            }),
            final(self).timer == old(self).timer,
            final(self).accept_connections == old(self).accept_connections,
            final(self).new_connection_ids@ == old(self).new_connection_ids@,
            final(self).pending_packets@ == old(self).pending_packets@,
    {
        let connection_id = random_u64();
        let connection = Connection::new(connection_id, EndpointRole::Client, addr);
        match self.find_connection(connection_id) {
            Some(i) => {
                let _old_entry = self.connections.remove(i);
                self.connections.insert(i, connection);
                proof {
                    assert(self.connections@ =~= old(self).connections@.update(
                        i as int,
                        self.connections@[i as int],
                    ));
                }
            },
            None => {
                self.connections.push(connection);
            },
        }
        connection_id
    }

    /// A connection is waiting to be accepted.
    pub fn have_connections(&self) -> (r: bool)
        ensures
            r == (self.new_connection_ids@.len() > 0),
    {
        self.new_connection_ids.len() > 0
    }

    /// Take the oldest waiting connection id.
    pub fn pop_new_connection(&mut self) -> (r: u64)
        requires
            old(self).new_connection_ids@.len() > 0,
        ensures
            r == old(self).new_connection_ids@[0],
            final(self).new_connection_ids@ == old(self).new_connection_ids@.drop_first(),
            final(self).timer == old(self).timer,
            final(self).accept_connections == old(self).accept_connections,
            final(self).connections@ == old(self).connections@,
            final(self).pending_packets@ == old(self).pending_packets@,
    {
        let r = self.new_connection_ids.remove(0);
        proof {
            assert(self.new_connection_ids@ =~= old(self).new_connection_ids@.drop_first());
        }
        r
    }

    /// Take every datagram staged for the transport.
    pub fn pop_pending_packets(&mut self) -> (r: Vec<OutgoingUdpPacket>)
        ensures
            r@ == old(self).pending_packets@,
            final(self).pending_packets@ == Seq::<OutgoingUdpPacket>::empty(),
            final(self).timer == old(self).timer,
            final(self).accept_connections == old(self).accept_connections,
            final(self).connections@ == old(self).connections@,
            final(self).new_connection_ids@ == old(self).new_connection_ids@,
    {
        let mut out: Vec<OutgoingUdpPacket> = Vec::new();
        core::mem::swap(&mut out, &mut self.pending_packets);
        out
    }

    /// The retransmission schedule, for sizing receive timeouts.
    pub fn timer_ref(&self) -> (r: &ThreadedTimer)
        ensures
            r == self.timer,
    {
        &self.timer
    }

    /// Whether a read on the given stream of the given connection would
    /// make progress; an unknown connection has none.
    pub fn data_available(&self, connection_id: u64, stream_id: u32) -> (r: bool)
        requires
            self.wf(),
        ensures
            forall|i: int|
                0 <= i < self.connections@.len() && (#[trigger] self.connections@[i]).id
                    == connection_id ==> r == (stream_id < self.connections@[i].streams@.len() && {
                    let s = smodel(self.connections@[i].streams@[stream_id as int]);
                    crate::engine::stream_buffer::readable_run(s.window) > 0 || ((s.state
                        == crate::engine::stream::StreamState::RemoteClosed || s.state
                        == crate::engine::stream::StreamState::Closed) && s.buf_next == s.fin_off)
                }),
            (forall|i: int|
                0 <= i < self.connections@.len() ==> (#[trigger] self.connections@[i]).id
                    != connection_id) ==> r == false,
    {
        match self.find_connection(connection_id) {
            Some(i) => {
                proof {
                    assert forall|j: int|
                        0 <= j < self.connections@.len() && (#[trigger] self.connections@[j]).id
                            == connection_id implies j == i by {
                        if j < i as int {
                            assert(self.connections@[j].id != self.connections@[i as int].id);
                        } else if j > i as int {
                            assert(self.connections@[i as int].id != self.connections@[j].id);
                        }
                    }
                }
                self.connections[i].data_available(stream_id)
            },
            None => false,
        }
    }

    /// Whether any stream of the given connection has data to report; an
    /// unknown connection has none.
    pub fn any_data_available(&self, connection_id: u64) -> (r: bool)
        requires
            self.wf(),
        ensures
            forall|i: int|
                0 <= i < self.connections@.len() && (#[trigger] self.connections@[i]).id
                    == connection_id ==> r == exists|k: int|
                    0 <= k < self.connections@[i].streams@.len() && {
                        let s = smodel(#[trigger] self.connections@[i].streams@[k]);
                        crate::engine::stream_buffer::readable_run(s.window) > 0 || ((s.state
                            == crate::engine::stream::StreamState::RemoteClosed || s.state
                            == crate::engine::stream::StreamState::Closed) && s.buf_next
                            == s.fin_off)
                    },
            (forall|i: int|
                0 <= i < self.connections@.len() ==> (#[trigger] self.connections@[i]).id
                    != connection_id) ==> r == false,
    {
        match self.find_connection(connection_id) {
            Some(i) => {
                proof {
                    assert forall|j: int|
                        0 <= j < self.connections@.len() && (#[trigger] self.connections@[j]).id
                            == connection_id implies j == i by {
                        if j < i as int {
                            assert(self.connections@[j].id != self.connections@[i as int].id);
                        } else if j > i as int {
                            assert(self.connections@[i as int].id != self.connections@[j].id);
                        }
                    }
                }
                self.connections[i].any_data_available()
            },
            None => false,
        }
    }
}

#[verifier::loop_isolation(false)]
fn is_ack_only(p: &Packet) -> (r: bool)
    ensures
        r == ack_only(p@),
{
    match p {
        Packet::Regular(rp) => {
            let mut i: usize = 0;
            while i < rp.payload.frames.len()
                invariant
                    i <= rp.payload.frames@.len(),
                    forall|j: int| 0 <= j < i ==> (#[trigger] rp.payload.frames@[j]@) is Ack,
                decreases rp.payload.frames@.len() - i,
            {
                match &rp.payload.frames[i] {
                    crate::frames::Frame::Ack(_) => {},
                    _ => {
                        proof {
                            assert(*p == Packet::Regular(*rp));
                            assert(p@ == PacketView::Regular(rp@));
                            assert(rp@.payload == crate::packets::frames_view(
                                rp.payload.frames@,
                            ));
                            assert(rp@.payload[i as int] == rp.payload.frames@[i as int]@);
                            assert(!(rp@.payload[i as int] is Ack));
                            assert(!ack_only(p@));
                        }
                        return false;
                    },
                }
                i = i + 1;
            }
            proof {
                assert forall|j: int| 0 <= j < rp@.payload.len() implies (#[trigger] rp@.payload[j]) is Ack by {
                    assert(rp@.payload[j] == rp.payload.frames@[j]@);
                }
            }
            true
        },
        _ => false,
    }
}

impl QuicEngine {
    /// Drain every connection, stage one datagram per drained packet,
    /// and arm a resend check for each packet that is not purely an
    /// acknowledgment.
    #[verifier::rlimit(100)]
    #[verifier::loop_isolation(false)]
    pub fn flush_buffered_data(&mut self, now_ms: u64)
        requires
            old(self).wf(),
            now_ms + RESEND_DELAY_MS <= u64::MAX,
            forall|j: int|
                0 <= j < old(self).connections@.len() ==> conn_budget_ok(
                    #[trigger] old(self).connections@[j],
                ),
        ensures
            final(self).wf(),
            flush_effect(*old(self), *final(self), now_ms as int),
    {
        proof {
            assert forall|j: int|
                0 <= j < old(self).connections@.len() implies (#[trigger] old(
                self,
            ).connections@[j]).next_outgoing_packet_number + total_stream_packets(
                streams_model(old(self).connections@[j].streams@),
            ) + old(self).connections@[j].streams@.len() <= u64::MAX by {
                assert(conn_budget_ok(old(self).connections@[j]));
            }
        }
        let ghost cs0 = self.connections@;
        let ghost t0 = self.timer.scheduled_items@;
        let ghost pend0 = self.pending_packets@;
        proof {
            assert(dgram_views(self.pending_packets@) =~= dgram_views(pend0) + flush_datagrams(
                cs0.take(0),
            ));
            assert(flush_outstanding(cs0.take(0)) =~= Seq::<PacketView>::empty());
        }
        let mut ci: usize = 0;
        while ci < self.connections.len()
            invariant
                self.wf(),
                ci <= cs0.len(),
                self.connections@.len() == cs0.len(),
                forall|i: int| ci <= i < cs0.len() ==> (#[trigger] self.connections@[i]) == cs0[i],
                forall|i: int|
                    0 <= i < ci ==> conn_after_flush(cs0[i], #[trigger] self.connections@[i]),
                dgram_views(self.pending_packets@) == dgram_views(pend0) + flush_datagrams(
                    cs0.take(ci as int),
                ),
                self.timer.scheduled_items@.len() == t0.len() + flush_outstanding(
                    cs0.take(ci as int),
                ).len(),
                forall|i: int|
                    0 <= i < t0.len() ==> (#[trigger] self.timer.scheduled_items@[i]) == t0[i],
                forall|k: int|
                    0 <= k < flush_outstanding(cs0.take(ci as int)).len() ==> {
                        let item = #[trigger] self.timer.scheduled_items@[t0.len() + k];
                        &&& item.fire_at_ms == now_ms + RESEND_DELAY_MS
                        &&& event_view(item.event) == flush_outstanding(cs0.take(ci as int))[k]
                        &&& event_ok(item.event)
                    },
                self.accept_connections == old(self).accept_connections,
                self.new_connection_ids@ == old(self).new_connection_ids@,
            decreases cs0.len() - ci,
        {
            proof {
                assert(cs0.take(ci + 1).drop_last() =~= cs0.take(ci as int));
                assert(cs0.take(ci + 1).last() == cs0[ci as int]);
            }
            let mut conn = self.connections.remove(ci);
            let ghost conn0 = conn;
            proof {
                assert(conn0 == cs0[ci as int]);
            }
            let ghost conns_mid = self.connections@;
            let mut drained = conn.drain_outgoing_packets();
            let ghost dviews = crate::engine::connection::packets_view(drained@);
            let ghost dvec0 = drained@;
            proof {
                assert(dviews =~= conn_drained_views(conn0));
                crate::engine::connection::lemma_expected_stream_packets_valid(
                    streams_model(conn0.streams@),
                    conn0.id,
                    conn0.next_outgoing_packet_number as int,
                );
                crate::engine::connection::lemma_expected_wu_packets_valid(
                    streams_model(conn0.streams@),
                    conn0.id,
                    conn0.next_outgoing_packet_number as int + total_stream_packets(
                        streams_model(conn0.streams@),
                    ),
                );
                assert forall|k: int| 0 <= k < dviews.len() implies packet_valid(
                    #[trigger] dviews[k],
                ) && dviews[k] is Regular by {
                    let m = streams_model(conn0.streams@);
                    let pn0 = conn0.next_outgoing_packet_number as int;
                    let e1 = expected_stream_packets(m, conn0.id, pn0);
                    let e2 = expected_wu_packets(m, conn0.id, pn0 + total_stream_packets(m));
                    if k < e1.len() {
                        assert(dviews[k] == e1[k]);
                    } else if k < e1.len() + e2.len() {
                        assert(dviews[k] == e2[k - e1.len()]);
                    } else {
                        assert(dviews[k] == crate::engine::connection::packets_view(
                            conn0.pending_packets@,
                        )[k - e1.len() - e2.len()]);
                        assert(conn0.pending_packets@[k - e1.len() - e2.len()]@ == dviews[k]);
                    }
                }
                assert(outstanding_views(dviews.take(0)) =~= Seq::<PacketView>::empty());
            }
            let ghost pend_mid = self.pending_packets@;
            let ghost t_mid = self.timer.scheduled_items@;
            let ghost u_mid = conn.unacked_packet_numbers@;
            let ghost streams_mid = conn.streams@;
            let ghost npn_mid = conn.next_outgoing_packet_number;
            let total = drained.len();
            let mut k: usize = 0;
            while k < total
                invariant
                    k <= total,
                    total == dviews.len(),
                    drained@ =~= dvec0.skip(k as int),
                    self.pending_packets@.len() == pend_mid.len() + k,
                    forall|i: int|
                        0 <= i < pend_mid.len() ==> (#[trigger] self.pending_packets@[i])
                            == pend_mid[i],
                    forall|t: int|
                        0 <= t < k ==> {
                            let d = #[trigger] self.pending_packets@[pend_mid.len() + t];
                            &&& d.destination_address == conn0.peer_address
                            &&& d.payload@ == packet_bytes(dviews[t])
                        },
                    conn.unacked_packet_numbers@ == u_mid + pns_of(
                        outstanding_views(dviews.take(k as int)),
                    ),
                    conn.peer_address == conn0.peer_address,
                    conn.id == conn0.id,
                    conn.endpoint_role == conn0.endpoint_role,
                    conn.last_consecutive_packet_number == conn0.last_consecutive_packet_number,
                    conn.closed == conn0.closed,
                    conn.streams@ == streams_mid,
                    conn.wf(),
                    conn.pending_packets@ == Seq::<Packet>::empty(),
                    conn.next_outgoing_packet_number == npn_mid,
                    self.connections@ == conns_mid,
                    self.timer.scheduled_items@.len() == t_mid.len() + outstanding_views(
                        dviews.take(k as int),
                    ).len(),
                    forall|i: int|
                        0 <= i < t_mid.len() ==> (#[trigger] self.timer.scheduled_items@[i])
                            == t_mid[i],
                    forall|t: int|
                        0 <= t < outstanding_views(dviews.take(k as int)).len() ==> {
                            let item = #[trigger] self.timer.scheduled_items@[t_mid.len() + t];
                            &&& item.fire_at_ms == now_ms + RESEND_DELAY_MS
                            &&& event_view(item.event) == outstanding_views(
                                dviews.take(k as int),
                            )[t]
                            &&& event_ok(item.event)
                        },
                    self.accept_connections == old(self).accept_connections,
                    self.new_connection_ids@ == old(self).new_connection_ids@,
                decreases total - k,
            {
                proof {
                    assert(dviews.take(k + 1).drop_last() =~= dviews.take(k as int));
                    assert(dviews.take(k + 1).last() == dviews[k as int]);
                    assert(dvec0.skip(k as int)[0] == dvec0[k as int]);
                }
                let packet = drained.remove(0);
                proof {
                    assert(packet == dvec0[k as int]);
                    assert(packet@ == dviews[k as int]);
                    assert(drained@ =~= dvec0.skip(k + 1));
                }
                let ack = is_ack_only(&packet);
                let mut buffer: Vec<u8> = Vec::new();
                packet.encode(&mut buffer);
                proof {
                    assert(buffer@ =~= packet_bytes(packet@));
                }
                self.pending_packets.push(
                    OutgoingUdpPacket {
                        destination_address: conn.peer_address,
                        payload: buffer,
                    },
                );
                if !ack {
                    let pn = match &packet {
                        Packet::Regular(p) => p.packet_number,
                        _ => 0,
                    };
                    conn.unacked_packet_numbers.push(pn);
                    self.timer.schedule(
                        now_ms,
                        RESEND_DELAY_MS,
                        ScheduledEvent::ResendUnackedPacket(packet),
                    );
                    proof {
                        assert(outstanding_views(dviews.take(k + 1)) =~= outstanding_views(
                            dviews.take(k as int),
                        ).push(dviews[k as int]));
                        assert(conn.unacked_packet_numbers@ =~= u_mid + pns_of(
                            outstanding_views(dviews.take(k + 1)),
                        ));
                    }
                } else {
                    proof {
                        assert(outstanding_views(dviews.take(k + 1)) =~= outstanding_views(
                            dviews.take(k as int),
                        ));
                    }
                }
                k = k + 1;
            }
            proof {
                assert(dviews.take(dviews.len() as int) =~= dviews);
                assert(conn_after_flush(cs0[ci as int], conn));
            }
            self.connections.insert(ci, conn);
            proof {
                assert(self.connections@ =~= conns_mid.insert(ci as int, conn));
                assert forall|i: int|
                    0 <= i < cs0.len() implies (#[trigger] self.connections@[i]).id == cs0[
                    i].id by {
                    if i < ci as int {
                        assert(conn_after_flush(cs0[i], self.connections@[i]));
                    } else if i == ci as int {
                    } else {
                        assert(self.connections@[i] == cs0[i]);
                    }
                }
                assert(outstanding_views(conn_drained_views(cs0[ci as int])) =~= outstanding_views(
                    dviews,
                ));
                assert(flush_outstanding(cs0.take(ci + 1)) =~= flush_outstanding(
                    cs0.take(ci as int),
                ) + outstanding_views(dviews));
                assert(conn_datagrams(cs0[ci as int]) =~= Seq::new(
                    dviews.len(),
                    |t: int|
                        DatagramView {
                            dest: conn0.peer_address,
                            payload: packet_bytes(dviews[t]),
                        },
                ));
                assert(flush_datagrams(cs0.take(ci + 1)) =~= flush_datagrams(cs0.take(ci as int))
                    + conn_datagrams(cs0[ci as int]));
                assert forall|i: int|
                    0 <= i < self.pending_packets@.len() implies dgram_views(
                    self.pending_packets@,
                )[i] == (dgram_views(pend0) + flush_datagrams(cs0.take(ci + 1)))[i] by {
                    assert(flush_datagrams(cs0.take(ci as int)).len() == pend_mid.len()
                        - pend0.len());
                    if i < pend_mid.len() {
                        assert(self.pending_packets@[i] == pend_mid[i]);
                        assert(dgram_views(self.pending_packets@)[i] == dgram_views(pend_mid)[i]);
                        assert(dgram_views(pend_mid)[i] == (dgram_views(pend0) + flush_datagrams(
                            cs0.take(ci as int),
                        ))[i]);
                        if i >= pend0.len() {
                            assert(flush_datagrams(cs0.take(ci + 1))[i - pend0.len()]
                                == flush_datagrams(cs0.take(ci as int))[i - pend0.len()]);
                        }
                    } else {
                        let t = i - pend_mid.len();
                        assert(self.pending_packets@[pend_mid.len() + t]
                            == self.pending_packets@[i]);
                        assert(self.pending_packets@[i].destination_address == cs0[
                            ci as int].peer_address);
                        assert(self.pending_packets@[i].payload@ == packet_bytes(dviews[t]));
                        assert(conn_drained_views(cs0[ci as int])[t] == dviews[t]);
                        assert(conn_datagrams(cs0[ci as int])[t] == (DatagramView {
                            dest: cs0[ci as int].peer_address,
                            payload: packet_bytes(dviews[t]),
                        }));
                        assert(flush_datagrams(cs0.take(ci + 1))[i - pend0.len()]
                            == conn_datagrams(cs0[ci as int])[t]);
                    }
                }
                assert(dgram_views(self.pending_packets@).len() == pend0.len()
                    + flush_datagrams(cs0.take(ci + 1)).len());
                assert(dgram_views(self.pending_packets@) =~= dgram_views(pend0)
                    + flush_datagrams(cs0.take(ci + 1)));
                let ghost pre = flush_outstanding(cs0.take(ci as int));
                assert(t_mid.len() == t0.len() + pre.len());
                assert forall|kk: int|
                    0 <= kk < flush_outstanding(cs0.take(ci + 1)).len() implies {
                    let item = #[trigger] self.timer.scheduled_items@[t0.len() + kk];
                    &&& item.fire_at_ms == now_ms + RESEND_DELAY_MS
                    &&& event_view(item.event) == flush_outstanding(cs0.take(ci + 1))[kk]
                    &&& event_ok(item.event)
                } by {
                    if kk < pre.len() {
                        assert(flush_outstanding(cs0.take(ci + 1))[kk] == pre[kk]);
                        assert(self.timer.scheduled_items@[t0.len() + kk] == t_mid[t0.len() + kk]);
                    } else {
                        assert(flush_outstanding(cs0.take(ci + 1))[kk] == outstanding_views(
                            dviews,
                        )[kk - pre.len()]);
                        assert(t0.len() + kk == t_mid.len() + (kk - pre.len()));
                    }
                }
            }
            proof {
                assert forall|ii: int|
                    0 <= ii < self.timer.scheduled_items@.len() implies event_ok(
                    (#[trigger] self.timer.scheduled_items@[ii]).event,
                ) by {
                    if ii < t0.len() {
                        assert(self.timer.scheduled_items@[ii] == t0[ii]);
                        assert(event_ok(old(self).timer.scheduled_items@[ii].event));
                    } else {
                        let kk = ii - t0.len();
                        assert(0 <= kk < flush_outstanding(cs0.take(ci + 1)).len());
                        assert(self.timer.scheduled_items@[t0.len() + kk]
                            == self.timer.scheduled_items@[ii]);
                    }
                }
            }
            ci = ci + 1;
        }
        proof {
            assert(cs0.take(cs0.len() as int) =~= cs0);
        }
    }
}

/// The target connection's streams after queueing `data` on `stream_id`
/// (missing streams up to it instantiated).
pub open spec fn write_models(c: Connection, stream_id: u32, data: Seq<u8>) -> Seq<StreamModel> {
    let ms = crate::engine::connection::extend_model(streams_model(c.streams@), stream_id);
    let s = ms[stream_id as int];
    ms.update(
        stream_id as int,
        StreamModel {
            state: crate::engine::stream::StreamState::Open,
            outgoing: s.outgoing + data,
            ..s
        },
    )
}

/// The target connection's streams after a read of `n` bytes from
/// `stream_id`.
pub open spec fn read_models(c: Connection, stream_id: u32, n: int) -> Seq<StreamModel> {
    let ms = crate::engine::connection::extend_model(streams_model(c.streams@), stream_id);
    let s = ms[stream_id as int];
    ms.update(
        stream_id as int,
        StreamModel { buf_next: s.buf_next + n, window: s.window.skip(n), ..s },
    )
}

/// The target connection's streams after closing the local half of
/// `stream_id`.
pub open spec fn finalize_models(c: Connection, stream_id: u32) -> Seq<StreamModel> {
    let ms = crate::engine::connection::extend_model(streams_model(c.streams@), stream_id);
    let s = ms[stream_id as int];
    ms.update(
        stream_id as int,
        StreamModel {
            state: crate::engine::stream::finalize_outgoing_transition(s.state),
            ..s
        },
    )
}

/// How many bytes a read with a buffer of `buflen` takes from stream
/// `stream_id` of `c`: the readable run, capped by the buffer.
pub open spec fn read_count(c: Connection, stream_id: u32, buflen: int) -> int {
    let ms = crate::engine::connection::extend_model(streams_model(c.streams@), stream_id);
    vstd::math::min(
        buflen,
        crate::engine::stream_buffer::readable_run(ms[stream_id as int].window),
    )
}

/// The write itself, before the flush that follows it.
pub open spec fn write_applied(
    e1: QuicEngine,
    e2: QuicEngine,
    connection_id: u64,
    stream_id: u32,
    data: Seq<u8>,
) -> bool {
    &&& e2.connections@.len() == e1.connections@.len()
    &&& forall|i: int|
        0 <= i < e1.connections@.len() ==> if (#[trigger] e1.connections@[i]).id
            == connection_id {
            streams_model(e2.connections@[i].streams@) == write_models(
                e1.connections@[i],
                stream_id,
                data,
            ) && unchanged_but_streams(e1.connections@[i], e2.connections@[i])
        } else {
            e2.connections@[i] == e1.connections@[i]
        }
    &&& e2.timer == e1.timer
    &&& e2.accept_connections == e1.accept_connections
    &&& e2.new_connection_ids@ == e1.new_connection_ids@
    &&& e2.pending_packets@ == e1.pending_packets@
}

/// The read itself, before the flush that follows it.
pub open spec fn read_applied(
    e1: QuicEngine,
    e2: QuicEngine,
    connection_id: u64,
    stream_id: u32,
    buflen: int,
) -> bool {
    &&& e2.connections@.len() == e1.connections@.len()
    &&& forall|i: int|
        0 <= i < e1.connections@.len() ==> if (#[trigger] e1.connections@[i]).id
            == connection_id {
            streams_model(e2.connections@[i].streams@) == read_models(
                e1.connections@[i],
                stream_id,
                read_count(e1.connections@[i], stream_id, buflen),
            ) && unchanged_but_streams(e1.connections@[i], e2.connections@[i])
        } else {
            e2.connections@[i] == e1.connections@[i]
        }
    &&& e2.timer == e1.timer
    &&& e2.accept_connections == e1.accept_connections
    &&& e2.new_connection_ids@ == e1.new_connection_ids@
    &&& e2.pending_packets@ == e1.pending_packets@
}

/// The finalize itself, before the flush that follows it.
pub open spec fn finalize_applied(
    e1: QuicEngine,
    e2: QuicEngine,
    connection_id: u64,
    stream_id: u32,
) -> bool {
    &&& e2.connections@.len() == e1.connections@.len()
    &&& forall|i: int|
        0 <= i < e1.connections@.len() ==> if (#[trigger] e1.connections@[i]).id
            == connection_id {
            streams_model(e2.connections@[i].streams@) == finalize_models(
                e1.connections@[i],
                stream_id,
            ) && unchanged_but_streams(e1.connections@[i], e2.connections@[i])
        } else {
            e2.connections@[i] == e1.connections@[i]
        }
    &&& e2.timer == e1.timer
    &&& e2.accept_connections == e1.accept_connections
    &&& e2.new_connection_ids@ == e1.new_connection_ids@
    &&& e2.pending_packets@ == e1.pending_packets@
}

impl QuicEngine {
    /// Queue bytes on a stream of a known connection, then flush: the
    /// resulting packets are staged as datagrams at once.
    pub fn write(
        &mut self,
        connection_id: u64,
        stream_id: u32,
        buf: &Vec<u8>,
        now_ms: u64,
    ) -> (r: Result<(), Error>)
        requires
            old(self).wf(),
            now_ms + RESEND_DELAY_MS <= u64::MAX,
            exists|i: int|
                0 <= i < old(self).connections@.len() && (#[trigger] old(
                    self,
                ).connections@[i]).id == connection_id,
            forall|i: int|
                0 <= i < old(self).connections@.len() && (#[trigger] old(
                    self,
                ).connections@[i]).id == connection_id ==> {
                    let ms = crate::engine::connection::extend_model(
                        streams_model(old(self).connections@[i].streams@),
                        stream_id,
                    );
                    ms[stream_id as int].next_out + ms[stream_id as int].outgoing.len()
                        + buf@.len() <= u64::MAX
                },
            forall|i: int|
                0 <= i < old(self).connections@.len() ==> if (#[trigger] old(
                    self,
                ).connections@[i]).id == connection_id {
                    budget_with(
                        old(self).connections@[i],
                        write_models(old(self).connections@[i], stream_id, buf@),
                        0,
                    )
                } else {
                    conn_budget_ok(old(self).connections@[i])
                },
        ensures
            final(self).wf(),
            r == Ok::<(), Error>(()),
            exists|mid: QuicEngine|
                #[trigger] write_applied(*old(self), mid, connection_id, stream_id, buf@)
                    && flush_effect(mid, *final(self), now_ms as int),
    {
        let idx = match self.find_connection(connection_id) {
            Some(i) => i,
            None => {
                proof {
                    assert(false);
                }
                return Err(Error::InvalidHandle);
            },
        };
        proof {
            lemma_unique_id(self.connections@, idx as int, connection_id);
        }
        let mut conn = self.connections.remove(idx);
        let r = conn.write(stream_id, buf);
        self.connections.insert(idx, conn);
        proof {
            assert(self.connections@ =~= old(self).connections@.update(
                idx as int,
                self.connections@[idx as int],
            ));
        }
        let ghost mid = *self;
        proof {
            assert(write_applied(*old(self), mid, connection_id, stream_id, buf@));
            assert forall|j: int|
                0 <= j < self.connections@.len() implies conn_budget_ok(
                #[trigger] self.connections@[j],
            ) by {
                if old(self).connections@[j].id == connection_id {
                    assert(streams_model(self.connections@[j].streams@) == write_models(
                        old(self).connections@[j],
                        stream_id,
                        buf@,
                    ));
                } else {
                    assert(self.connections@[j] == old(self).connections@[j]);
                }
            }
        }
        self.flush_buffered_data(now_ms);
        proof {
            assert(write_applied(*old(self), mid, connection_id, stream_id, buf@)
                && flush_effect(mid, *self, now_ms as int));
        }
        r
    }

    /// Read reassembled bytes from a stream of a known connection, then
    /// flush: a moved receive window becomes a window update at once.
    pub fn read(
        &mut self,
        connection_id: u64,
        stream_id: u32,
        buf: &mut Vec<u8>,
        now_ms: u64,
    ) -> (r: Result<usize, Error>)
        requires
            old(self).wf(),
            now_ms + RESEND_DELAY_MS <= u64::MAX,
            exists|i: int|
                0 <= i < old(self).connections@.len() && (#[trigger] old(
                    self,
                ).connections@[i]).id == connection_id,
            forall|i: int|
                0 <= i < old(self).connections@.len() ==> if (#[trigger] old(
                    self,
                ).connections@[i]).id == connection_id {
                    budget_with(
                        old(self).connections@[i],
                        read_models(
                            old(self).connections@[i],
                            stream_id,
                            read_count(
                                old(self).connections@[i],
                                stream_id,
                                old(buf)@.len() as int,
                            ),
                        ),
                        0,
                    )
                } else {
                    conn_budget_ok(old(self).connections@[i])
                },
        ensures
            final(self).wf(),
            forall|i: int|
                0 <= i < old(self).connections@.len() && (#[trigger] old(
                    self,
                ).connections@[i]).id == connection_id ==> {
                    let ms = crate::engine::connection::extend_model(
                        streams_model(old(self).connections@[i].streams@),
                        stream_id,
                    );
                    let s = ms[stream_id as int];
                    let n = read_count(old(self).connections@[i], stream_id, old(buf)@.len() as int);
                    &&& r == Ok::<usize, Error>(n as usize)
                    &&& final(buf)@.len() == old(buf)@.len()
                    &&& (forall|t: int|
                        0 <= t < n ==> (#[trigger] final(buf)@[t]) == s.window[t].unwrap())
                    &&& (forall|t: int|
                        n <= t < old(buf)@.len() ==> (#[trigger] final(buf)@[t]) == old(buf)@[t])
                },
            exists|mid: QuicEngine|
                #[trigger] read_applied(
                    *old(self),
                    mid,
                    connection_id,
                    stream_id,
                    old(buf)@.len() as int,
                ) && flush_effect(mid, *final(self), now_ms as int),
    {
        let idx = match self.find_connection(connection_id) {
            Some(i) => i,
            None => {
                proof {
                    assert(false);
                }
                return Err(Error::InvalidHandle);
            },
        };
        proof {
            lemma_unique_id(self.connections@, idx as int, connection_id);
        }
        let mut conn = self.connections.remove(idx);
        let r = conn.read(stream_id, buf);
        self.connections.insert(idx, conn);
        proof {
            assert(self.connections@ =~= old(self).connections@.update(
                idx as int,
                self.connections@[idx as int],
            ));
        }
        let ghost mid = *self;
        proof {
            assert(read_applied(
                *old(self),
                mid,
                connection_id,
                stream_id,
                old(buf)@.len() as int,
            ));
            assert forall|j: int|
                0 <= j < self.connections@.len() implies conn_budget_ok(
                #[trigger] self.connections@[j],
            ) by {
                if old(self).connections@[j].id == connection_id {
                    assert(streams_model(self.connections@[j].streams@) == read_models(
                        old(self).connections@[j],
                        stream_id,
                        read_count(old(self).connections@[j], stream_id, old(buf)@.len() as int),
                    ));
                } else {
                    assert(self.connections@[j] == old(self).connections@[j]);
                }
            }
        }
        self.flush_buffered_data(now_ms);
        proof {
            assert(read_applied(
                *old(self),
                mid,
                connection_id,
                stream_id,
                old(buf)@.len() as int,
            ) && flush_effect(mid, *self, now_ms as int));
        }
        r
    }

    /// Close the local half of a stream of a known connection, then
    /// flush: the terminal fin frame goes out at once.
    pub fn finalize_outgoing_stream(
        &mut self,
        connection_id: u64,
        stream_id: u32,
        now_ms: u64,
    ) -> (r: Result<(), Error>)
        requires
            old(self).wf(),
            now_ms + RESEND_DELAY_MS <= u64::MAX,
            exists|i: int|
                0 <= i < old(self).connections@.len() && (#[trigger] old(
                    self,
                ).connections@[i]).id == connection_id,
            forall|i: int|
                0 <= i < old(self).connections@.len() ==> if (#[trigger] old(
                    self,
                ).connections@[i]).id == connection_id {
                    budget_with(
                        old(self).connections@[i],
                        finalize_models(old(self).connections@[i], stream_id),
                        0,
                    )
                } else {
                    conn_budget_ok(old(self).connections@[i])
                },
        ensures
            final(self).wf(),
            r == Ok::<(), Error>(()),
            exists|mid: QuicEngine|
                #[trigger] finalize_applied(*old(self), mid, connection_id, stream_id)
                    && flush_effect(mid, *final(self), now_ms as int),
    {
        let idx = match self.find_connection(connection_id) {
            Some(i) => i,
            None => {
                proof {
                    assert(false);
                }
                return Err(Error::InvalidHandle);
            },
        };
        proof {
            lemma_unique_id(self.connections@, idx as int, connection_id);
        }
        let mut conn = self.connections.remove(idx);
        let r = conn.finalize_outgoing_stream(stream_id);
        self.connections.insert(idx, conn);
        proof {
            assert(self.connections@ =~= old(self).connections@.update(
                idx as int,
                self.connections@[idx as int],
            ));
        }
        let ghost mid = *self;
        proof {
            assert(finalize_applied(*old(self), mid, connection_id, stream_id));
            assert forall|j: int|
                0 <= j < self.connections@.len() implies conn_budget_ok(
                #[trigger] self.connections@[j],
            ) by {
                if old(self).connections@[j].id == connection_id {
                    assert(streams_model(self.connections@[j].streams@) == finalize_models(
                        old(self).connections@[j],
                        stream_id,
                    ));
                } else {
                    assert(self.connections@[j] == old(self).connections@[j]);
                }
            }
        }
        self.flush_buffered_data(now_ms);
        proof {
            assert(finalize_applied(*old(self), mid, connection_id, stream_id) && flush_effect(
                mid,
                *self,
                now_ms as int,
            ));
        }
        r
    }

    /// Route one inbound datagram, then flush if it reached a
    /// connection. A datagram that does not decode, a reset or version
    /// negotiation, a packet without a connection id, or an unknown id
    /// while not accepting, is dropped without a trace; an unknown id
    /// while accepting opens a server connection and queues it for
    /// accept; otherwise the known connection takes the packet.
    pub fn handle_incoming_packet(&mut self, packet: IncomingUdpPacket, now_ms: u64)
        requires
            old(self).wf(),
            now_ms + RESEND_DELAY_MS <= u64::MAX,
            forall|i: int|
                0 <= i < old(self).connections@.len() ==> (#[trigger] old(
                    self,
                ).connections@[i]).next_outgoing_packet_number < u64::MAX,
            forall|i: int|
                0 <= i < old(self).connections@.len() ==> match parse_packet(
                    packet.payload@,
                    role_of(old(self).accept_connections),
                ) {
                    Ok(pv) => match pv {
                        PacketView::Regular(p) => match p.header.connection_id {
                            Some(cid) => if (#[trigger] old(self).connections@[i]).id == cid {
                                budget_with(
                                    old(self).connections@[i],
                                    apply_frames(
                                        old(self).connections@[i].model(),
                                        p.payload,
                                    ).streams,
                                    1,
                                )
                            } else {
                                conn_budget_ok(old(self).connections@[i])
                            },
                            None => conn_budget_ok(old(self).connections@[i]),
                        },
                        _ => conn_budget_ok(old(self).connections@[i]),
                    },
                    Err(_) => conn_budget_ok(old(self).connections@[i]),
                },
            match parse_packet(packet.payload@, role_of(old(self).accept_connections)) {
                Ok(pv) => match pv {
                    PacketView::Regular(p) => match p.header.connection_id {
                        Some(cid) => (forall|i: int|
                            0 <= i < old(self).connections@.len() ==> (#[trigger] old(
                                self,
                            ).connections@[i]).id != cid) && old(self).accept_connections ==> {
                            let applied = apply_frames(fresh_conn_model(), p.payload).streams;
                            2 + total_stream_packets(applied) + applied.len() <= u64::MAX
                        },
                        None => true,
                    },
                    _ => true,
                },
                Err(_) => true,
            },
        ensures
            final(self).wf(),
            exists|mid: QuicEngine|
                #[trigger] incoming_applied(*old(self), mid, packet) && (if incoming_reaches(
                    *old(self),
                    packet,
                ) {
                    flush_effect(mid, *final(self), now_ms as int)
                } else {
                    mid == *final(self)
                }),
    {
        let endpoint_role = if self.accept_connections {
            EndpointRole::Server
        } else {
            EndpointRole::Client
        };
        let source_address = packet.source_address;
        let decoded = match Packet::decode(&packet.payload, endpoint_role) {
            Ok(p) => p,
            Err(_) => {
                proof {
                    assert(incoming_applied(*old(self), *self, packet));
                }
                return ;
            },
        };
        match decoded {
            Packet::Regular(regular_packet) => {
                match regular_packet.header.connection_id {
                    Some(connection_id) => {
                        match self.find_connection(connection_id) {
                            Some(idx) => {
                                proof {
                                    lemma_unique_id(self.connections@, idx as int, connection_id);
                                }
                                let mut conn = self.connections.remove(idx);
                                conn.handle_regular_packet(&regular_packet);
                                self.connections.insert(idx, conn);
                                proof {
                                    assert(self.connections@ =~= old(self).connections@.update(
                                        idx as int,
                                        self.connections@[idx as int],
                                    ));
                                }
                                let ghost mid = *self;
                                proof {
                                    assert(incoming_applied(*old(self), mid, packet));
                                    assert forall|j: int|
                                        0 <= j < self.connections@.len() implies conn_budget_ok(
                                        #[trigger] self.connections@[j],
                                    ) by {
                                        if j == idx as int {
                                            let c0 = old(self).connections@[j];
                                            let p = parse_packet(
                                                packet.payload@,
                                                role_of(old(self).accept_connections),
                                            )->Ok_0->Regular_0;
                                            assert(self.connections@[j].model() == apply_frames(
                                                c0.model(),
                                                p.payload,
                                            ));
                                            assert(streams_model(self.connections@[j].streams@)
                                                == apply_frames(c0.model(), p.payload).streams);
                                            assert(self.connections@[
                                            j].next_outgoing_packet_number
                                                <= c0.next_outgoing_packet_number + 1);
                                        } else {
                                            assert(self.connections@[j] == old(
                                                self,
                                            ).connections@[j]);
                                        }
                                    }
                                }
                                self.flush_buffered_data(now_ms);
                                proof {
                                    assert(incoming_applied(*old(self), mid, packet)
                                        && flush_effect(mid, *self, now_ms as int));
                                }
                            },
                            None => {
                                if self.accept_connections {
                                    let mut conn = Connection::new(
                                        connection_id,
                                        EndpointRole::Server,
                                        source_address,
                                    );
                                    let ghost c0 = conn;
                                    conn.handle_regular_packet(&regular_packet);
                                    self.connections.push(conn);
                                    self.new_connection_ids.push(connection_id);
                                    let ghost mid = *self;
                                    proof {
                                        assert(is_fresh_connection(
                                            c0,
                                            connection_id,
                                            EndpointRole::Server,
                                            source_address,
                                        ));
                                        assert(conn_after_regular(
                                            c0,
                                            self.connections@.last(),
                                            regular_packet@,
                                        ));
                                        assert forall|i: int, j: int|
                                            0 <= i < j < self.connections@.len() implies (
                                        #[trigger] self.connections@[i]).id != (
                                        #[trigger] self.connections@[j]).id by {
                                            if j == self.connections@.len() - 1 {
                                                assert(self.connections@[i] == old(
                                                    self,
                                                ).connections@[i]);
                                                assert(old(self).connections@[i].id
                                                    != connection_id);
                                            }
                                        }
                                        assert(incoming_applied(*old(self), mid, packet));
                                        assert forall|j: int|
                                            0 <= j < self.connections@.len() implies conn_budget_ok(
                                            #[trigger] self.connections@[j],
                                        ) by {
                                            if j == self.connections@.len() - 1 {
                                                let p = parse_packet(
                                                    packet.payload@,
                                                    role_of(old(self).accept_connections),
                                                )->Ok_0->Regular_0;
                                                assert(c0.model().streams
                                                    =~= Seq::<StreamModel>::empty());
                                                assert(c0.model() == fresh_conn_model());
                                                assert(self.connections@[j].model()
                                                    == apply_frames(
                                                    fresh_conn_model(),
                                                    p.payload,
                                                ));
                                                assert(streams_model(
                                                    self.connections@[j].streams@,
                                                ) == apply_frames(
                                                    fresh_conn_model(),
                                                    p.payload,
                                                ).streams);
                                                assert(self.connections@[
                                                j].next_outgoing_packet_number <= 2);
                                            } else {
                                                assert(self.connections@[j] == old(
                                                    self,
                                                ).connections@[j]);
                                            }
                                        }
                                    }
                                    self.flush_buffered_data(now_ms);
                                    proof {
                                        assert(incoming_applied(*old(self), mid, packet)
                                            && flush_effect(mid, *self, now_ms as int));
                                    }
                                } else {
                                    proof {
                                        assert(incoming_applied(*old(self), *self, packet));
                                    }
                                }
                            },
                        }
                    },
                    None => {
                        proof {
                            assert(incoming_applied(*old(self), *self, packet));
                        }
                    },
                }
            },
            Packet::VersionNegotiation(_) => {
                proof {
                    assert(incoming_applied(*old(self), *self, packet));
                }
            },
            Packet::PublicReset(_) => {
                proof {
                    assert(incoming_applied(*old(self), *self, packet));
                }
            },
        }
    }

    /// Pull every due timer event, re-queue each resend packet whose
    /// number is still outstanding on its connection, then flush so the
    /// re-queued packets go out as datagrams.
    #[verifier::loop_isolation(false)]
    pub fn handle_due_events(&mut self, now_ms: u64)
        requires
            old(self).wf(),
            now_ms + RESEND_DELAY_MS <= u64::MAX,
            forall|j: int|
                0 <= j < old(self).connections@.len() ==> conn_budget_ok(
                    #[trigger] old(self).connections@[j],
                ),
        ensures
            final(self).wf(),
            exists|mid: QuicEngine|
                #[trigger] due_applied(*old(self), mid, now_ms as int) && flush_effect(
                    mid,
                    *final(self),
                    now_ms as int,
                ),
    {
        proof {
            crate::threaded::timer::lemma_due_of_are_events(
                self.timer.scheduled_items@,
                now_ms as int,
            );
            crate::threaded::timer::lemma_pending_of_are_items(
                self.timer.scheduled_items@,
                now_ms as int,
            );
        }
        let mut events = self.timer.pop_due_events(now_ms);
        let etotal = events.len();
        let ghost evs = events@;
        let ghost t_after = self.timer.scheduled_items@;
        proof {
            assert(evs.len() == etotal);
            assert forall|i: int|
                0 <= i < self.timer.scheduled_items@.len() implies event_ok(
                (#[trigger] self.timer.scheduled_items@[i]).event,
            ) by {
                assert(exists|j: int|
                    0 <= j < old(self).timer.scheduled_items@.len() && self.timer.scheduled_items@[
                    i] == old(self).timer.scheduled_items@[j]);
            }
            assert forall|i: int|
                0 <= i < self.connections@.len() implies {
                let c = old(self).connections@[i];
                (#[trigger] self.connections@[i]).pending_packets@ == c.pending_packets@
                    + resends_for(evs.take(0), c.id, c.unacked_packet_numbers@)
            } by {
                assert(resends_for(evs.take(0), old(self).connections@[i].id, old(
                    self,
                ).connections@[i].unacked_packet_numbers@) =~= Seq::<Packet>::empty());
                assert(self.connections@[i].pending_packets@ =~= self.connections@[
                    i].pending_packets@ + Seq::<Packet>::empty());
            }
        }
        let mut k: usize = 0;
        while events.len() > 0
            invariant
                evs.len() <= usize::MAX,
                events@.len() + k == evs.len(),
                events@ =~= evs.skip(k as int),
                self.wf(),
                self.timer.scheduled_items@ == t_after,
                self.connections@.len() == old(self).connections@.len(),
                self.accept_connections == old(self).accept_connections,
                self.new_connection_ids@ == old(self).new_connection_ids@,
                self.pending_packets@ == old(self).pending_packets@,
                forall|i: int|
                    0 <= i < old(self).connections@.len() ==> {
                        let c = old(self).connections@[i];
                        let c2 = #[trigger] self.connections@[i];
                        &&& c2.pending_packets@ == c.pending_packets@ + resends_for(
                            evs.take(k as int),
                            c.id,
                            c.unacked_packet_numbers@,
                        )
                        &&& c2.id == c.id
                        &&& c2.endpoint_role == c.endpoint_role
                        &&& c2.streams@ == c.streams@
                        &&& c2.unacked_packet_numbers@ == c.unacked_packet_numbers@
                        &&& c2.last_consecutive_packet_number == c.last_consecutive_packet_number
                        &&& c2.next_outgoing_packet_number == c.next_outgoing_packet_number
                        &&& c2.peer_address == c.peer_address
                        &&& c2.closed == c.closed
                    },
            decreases events@.len(),
        {
            proof {
                assert(evs.skip(k as int)[0] == evs[k as int]);
                assert(exists|j: int|
                    0 <= j < old(self).timer.scheduled_items@.len() && evs[k as int] == old(
                        self,
                    ).timer.scheduled_items@[j].event);
                assert(event_ok(evs[k as int]));
                assert(evs.take(k + 1).drop_last() =~= evs.take(k as int));
                assert(evs.take(k + 1).last() == evs[k as int]);
            }
            let event = events.remove(0);
            proof {
                assert(event == evs[k as int]);
                assert(events@ =~= evs.skip(k + 1));
            }
            match event {
                ScheduledEvent::ResendUnackedPacket(p) => {
                    let cid_opt: Option<u64> = match &p {
                        Packet::Regular(rp) => rp.header.connection_id,
                        _ => None,
                    };
                    match cid_opt {
                        Some(cid) => {
                            match self.find_connection(cid) {
                                Some(idx) => {
                                    proof {
                                        lemma_unique_id(self.connections@, idx as int, cid);
                                    }
                                    let ghost pre = self.connections@;
                                    let mut conn = self.connections.remove(idx);
                                    conn.check_unacked_packet(p);
                                    self.connections.insert(idx, conn);
                                    proof {
                                        assert(self.connections@ =~= pre.update(
                                            idx as int,
                                            self.connections@[idx as int],
                                        ));
                                        assert forall|i: int|
                                            0 <= i < old(self).connections@.len() implies {
                                            let c = old(self).connections@[i];
                                            (#[trigger] self.connections@[i]).pending_packets@
                                                == c.pending_packets@ + resends_for(
                                                evs.take(k + 1),
                                                c.id,
                                                c.unacked_packet_numbers@,
                                            )
                                        } by {
                                            let c = old(self).connections@[i];
                                            if i == idx as int {
                                                assert(pre[i].unacked_packet_numbers@
                                                    == c.unacked_packet_numbers@);
                                                if c.unacked_packet_numbers@.contains(
                                                    evs[k as int]->ResendUnackedPacket_0
                                                        ->Regular_0.packet_number,
                                                ) {
                                                    assert(c.pending_packets@ + resends_for(
                                                        evs.take(k + 1),
                                                        c.id,
                                                        c.unacked_packet_numbers@,
                                                    ) =~= (c.pending_packets@ + resends_for(
                                                        evs.take(k as int),
                                                        c.id,
                                                        c.unacked_packet_numbers@,
                                                    )).push(
                                                        evs[k as int]->ResendUnackedPacket_0,
                                                    ));
                                                } else {
                                                    assert(resends_for(
                                                        evs.take(k + 1),
                                                        c.id,
                                                        c.unacked_packet_numbers@,
                                                    ) =~= resends_for(
                                                        evs.take(k as int),
                                                        c.id,
                                                        c.unacked_packet_numbers@,
                                                    ));
                                                }
                                            } else {
                                                assert(self.connections@[i] == pre[i]);
                                                assert(pre[i].id != cid);
                                                assert(resends_for(
                                                    evs.take(k + 1),
                                                    c.id,
                                                    c.unacked_packet_numbers@,
                                                ) =~= resends_for(
                                                    evs.take(k as int),
                                                    c.id,
                                                    c.unacked_packet_numbers@,
                                                ));
                                            }
                                        }
                                    }
                                },
                                None => {
                                    proof {
                                        assert forall|i: int|
                                            0 <= i < old(self).connections@.len() implies {
                                            let c = old(self).connections@[i];
                                            (#[trigger] self.connections@[i]).pending_packets@
                                                == c.pending_packets@ + resends_for(
                                                evs.take(k + 1),
                                                c.id,
                                                c.unacked_packet_numbers@,
                                            )
                                        } by {
                                            let c = old(self).connections@[i];
                                            assert(self.connections@[i].id != cid);
                                            assert(resends_for(
                                                evs.take(k + 1),
                                                c.id,
                                                c.unacked_packet_numbers@,
                                            ) =~= resends_for(
                                                evs.take(k as int),
                                                c.id,
                                                c.unacked_packet_numbers@,
                                            ));
                                        }
                                    }
                                },
                            }
                        },
                        None => {
                            proof {
                                assert forall|i: int|
                                    0 <= i < old(self).connections@.len() implies {
                                    let c = old(self).connections@[i];
                                    (#[trigger] self.connections@[i]).pending_packets@
                                        == c.pending_packets@ + resends_for(
                                        evs.take(k + 1),
                                        c.id,
                                        c.unacked_packet_numbers@,
                                    )
                                } by {
                                    let c = old(self).connections@[i];
                                    assert(resends_for(
                                        evs.take(k + 1),
                                        c.id,
                                        c.unacked_packet_numbers@,
                                    ) =~= resends_for(
                                        evs.take(k as int),
                                        c.id,
                                        c.unacked_packet_numbers@,
                                    ));
                                }
                            }
                        },
                    }
                },
            }
            k = k + 1;
        }
        let ghost mid = *self;
        proof {
            assert(evs.take(evs.len() as int) =~= evs);
            assert(due_applied(*old(self), mid, now_ms as int));
            assert forall|j: int|
                0 <= j < self.connections@.len() implies conn_budget_ok(
                #[trigger] self.connections@[j],
            ) by {
                assert(self.connections@[j].streams@ == old(self).connections@[j].streams@);
                assert(self.connections@[j].next_outgoing_packet_number == old(
                    self,
                ).connections@[j].next_outgoing_packet_number);
                assert(conn_budget_ok(old(self).connections@[j]));
            }
        }
        self.flush_buffered_data(now_ms);
        proof {
            assert(due_applied(*old(self), mid, now_ms as int) && flush_effect(
                mid,
                *self,
                now_ms as int,
            ));
        }
    }
}

/// Distinct ids make the found index the only match.
proof fn lemma_unique_id(cs: Seq<Connection>, idx: int, id: u64)
    requires
        forall|i: int, j: int|
            0 <= i < j < cs.len() ==> (#[trigger] cs[i]).id != (#[trigger] cs[j]).id,
        0 <= idx < cs.len(),
        cs[idx].id == id,
    ensures
        forall|i: int| 0 <= i < cs.len() && (#[trigger] cs[i]).id == id ==> i == idx,
{
    assert forall|i: int| 0 <= i < cs.len() && (#[trigger] cs[i]).id == id implies i == idx by {
        if i < idx {
            assert(cs[i].id != cs[idx].id);
        } else if i > idx {
            assert(cs[idx].id != cs[i].id);
        }
    }
}

/// A connection after an engine operation that only touched its streams.
pub open spec fn unchanged_but_streams(c: Connection, c2: Connection) -> bool {
    &&& c2.id == c.id
    &&& c2.endpoint_role == c.endpoint_role
    &&& c2.last_consecutive_packet_number == c.last_consecutive_packet_number
    &&& c2.next_outgoing_packet_number == c.next_outgoing_packet_number
    &&& c2.peer_address == c.peer_address
    &&& c2.pending_packets@ == c.pending_packets@
    &&& c2.unacked_packet_numbers@ == c.unacked_packet_numbers@
    &&& c2.closed == c.closed
}

} // verus!