//! One connection: demultiplexes inbound frames across streams, turns
//! buffered stream data into outgoing packets under the per-packet
//! payload budget, and keeps acknowledgment and retransmission
//! bookkeeping.

use vstd::prelude::*;

use crate::endpoint_role::EndpointRole;
use crate::engine::stream::{
    finalize_incoming_transition, is_fresh_stream, receive_transition, Stream, StreamState,
    INCOMING_BUFFER_SIZE,
};
use crate::engine::stream_buffer::{add_conflicts, add_within_window, window_after_add};
use crate::engine::udp_packet::PeerAddress;
use crate::errors::Error;
use crate::frames::ack::AckFrame;
use crate::frames::stream::{StreamFrame, StreamFrameView};
use crate::frames::window_update::WindowUpdateFrame;
use crate::frames::{Frame, FrameView};
use crate::packets::{
    frames_view, Packet, PacketHeader, PacketPayload, PacketView, RegularPacket,
    RegularPacketView,
};

verus! {

/// Largest number of frame payload bytes packed into one packet.
pub const MAX_DATA_SIZE: usize = 1000;

/// Mathematical image of one stream.
pub struct StreamModel {
    pub id: u32,
    pub state: StreamState,
    pub fin_sent: bool,
    pub buf_next: int,
    pub buf_cap: int,
    pub window: Seq<Option<u8>>,
    pub prev_max: int,
    pub fin_off: int,
    pub outgoing: Seq<u8>,
    pub max_out: int,
    pub next_out: int,
}

pub open spec fn smodel(s: Stream) -> StreamModel {
    StreamModel {
        id: s.id,
        state: s.state,
        fin_sent: s.fin_sent,
        buf_next: s.buf().next(),
        buf_cap: s.buf().cap(),
        window: s.buf().window(),
        prev_max: s.prev_max(),
        fin_off: s.fin_off(),
        outgoing: s.outgoing(),
        max_out: s.max_outgoing_data as int,
        next_out: s.next_out(),
    }
}

pub open spec fn streams_model(ss: Seq<Stream>) -> Seq<StreamModel> {
    Seq::new(ss.len(), |i: int| smodel(ss[i]))
}

/// The state a lazily created stream starts in.
pub open spec fn fresh_stream_model(id: u32) -> StreamModel {
    StreamModel {
        id,
        state: StreamState::Idle,
        fin_sent: false,
        buf_next: 0,
        buf_cap: INCOMING_BUFFER_SIZE as int,
        window: Seq::empty(),
        prev_max: 0,
        fin_off: 0,
        outgoing: Seq::empty(),
        max_out: INCOMING_BUFFER_SIZE as int,
        next_out: 0,
    }
}

/// Grow the stream list so that `sid` exists, instantiating every
/// missing id up to it.
pub open spec fn extend_model(ms: Seq<StreamModel>, sid: u32) -> Seq<StreamModel> {
    if sid < ms.len() {
        ms
    } else {
        ms + Seq::new(
            (sid + 1 - ms.len()) as nat,
            |k: int| fresh_stream_model((ms.len() + k) as u32),
        )
    }
}

/// A stream receiving wire bytes: the stream opens if idle and the
/// reassembly window takes the bytes exactly when they are in-window,
/// above the read cursor and free of conflicts.
pub open spec fn stream_receive_model(m: StreamModel, offset: int, data: Seq<u8>) -> StreamModel {
    if data.len() == 0 {
        m
    } else {
        let accepted = add_within_window(m.buf_next, m.buf_cap, offset, data.len() as int)
            && offset >= m.buf_next && !add_conflicts(m.window, offset - m.buf_next, data);
        StreamModel {
            state: receive_transition(m.state),
            window: if accepted {
                window_after_add(m.window, offset - m.buf_next, data)
            } else {
                m.window
            },
            ..m
        }
    }
}

/// A stream learning the peer's end-of-stream offset.
pub open spec fn stream_fin_model(m: StreamModel, offset: int) -> StreamModel {
    StreamModel { state: finalize_incoming_transition(m.state), fin_off: offset, ..m }
}

/// Outstanding packet numbers still above a cumulative acknowledgment.
pub open spec fn keep_above(s: Seq<u64>, la: u64) -> Seq<u64>
    decreases s.len(),
{
    if s.len() == 0 {
        Seq::empty()
    } else {
        keep_above(s.drop_last(), la) + (if s.last() > la {
            seq![s.last()]
        } else {
            Seq::empty()
        })
    }
}

/// The connection state one inbound frame touches.
pub struct ConnModel {
    pub streams: Seq<StreamModel>,
    pub unacked: Seq<u64>,
    pub closed: bool,
}

/// The effect of one inbound frame. Stream frames deliver bytes (and an
/// end-of-stream mark); window updates raise a stream's send ceiling;
/// acks release outstanding packet numbers up to the acknowledged one;
/// a window update never lowers a ceiling, so credit already granted to
/// the sender stays granted;
/// a stream reset ends the stream's incoming half at its final offset;
/// connection-close and go-away put the connection in a terminal state;
/// padding, ping, blocked and stop-waiting need no action.
pub open spec fn apply_frame(m: ConnModel, f: FrameView) -> ConnModel {
    match f {
        FrameView::Stream(sf) => {
            let ms = extend_model(m.streams, sf.stream_id);
            let s0 = ms[sf.stream_id as int];
            let s1 = stream_receive_model(s0, sf.offset as int, sf.stream_data);
            let s2 = if sf.fin {
                stream_fin_model(s1, sf.offset as int)
            } else {
                s1
            };
            ConnModel { streams: ms.update(sf.stream_id as int, s2), ..m }
        },
        FrameView::WindowUpdate(wu) => {
            let ms = extend_model(m.streams, wu.stream_id);
            let s0 = ms[wu.stream_id as int];
            let raised: int = if wu.byte_offset as int > s0.max_out {
                wu.byte_offset as int
            } else {
                s0.max_out
            };
            let s1 = StreamModel { max_out: raised, ..s0 };
            ConnModel { streams: ms.update(wu.stream_id as int, s1), ..m }
        },
        FrameView::Ack(a) => ConnModel {
            unacked: keep_above(m.unacked, a.largest_acknowledged),
            ..m
        },
        FrameView::RstStream(r) => {
            let ms = extend_model(m.streams, r.stream_id);
            let s0 = ms[r.stream_id as int];
            let s1 = stream_fin_model(s0, r.final_offset as int);
            ConnModel { streams: ms.update(r.stream_id as int, s1), ..m }
        },
        FrameView::ConnectionClose(_) => ConnModel { closed: true, ..m },
        FrameView::GoAway(_) => ConnModel { closed: true, ..m },
        _ => m,
    }
}

pub open spec fn apply_frames(m: ConnModel, fs: Seq<FrameView>) -> ConnModel
    decreases fs.len(),
{
    if fs.len() == 0 {
        m
    } else {
        apply_frames(apply_frame(m, fs[0]), fs.drop_first())
    }
}

/// The packet shell every outgoing packet of a connection uses: a
/// four-byte packet number, the connection id, no version.
pub open spec fn mk_packet(id: u64, pn: int, frames: Seq<FrameView>) -> PacketView {
    PacketView::Regular(
        RegularPacketView {
            header: PacketHeader {
                key_phase: false,
                packet_number_size: 4,
                multipath: false,
                connection_id: Some(id),
            },
            version: None,
            packet_number: pn as u64,
            payload: frames,
        },
    )
}

pub open spec fn packets_view(v: Seq<Packet>) -> Seq<PacketView> {
    Seq::new(v.len(), |i: int| v[i]@)
}

/// Drained stream bytes split into packets: each carries one stream
/// frame of at most the payload budget, full-sized except the last.
pub open spec fn data_packets(sid: u32, id: u64, pn0: int, offset: int, data: Seq<u8>) -> Seq<
    PacketView,
>
    decreases data.len(),
{
    if data.len() == 0 {
        Seq::empty()
    } else {
        let k: int = if data.len() > MAX_DATA_SIZE as int {
            MAX_DATA_SIZE as int
        } else {
            data.len() as int
        };
        seq![
            mk_packet(
                id,
                pn0,
                seq![
                    FrameView::Stream(
                        StreamFrameView {
                            stream_id: sid,
                            offset: offset as u64,
                            stream_data: data.take(k),
                            fin: false,
                        },
                    ),
                ],
            ),
        ] + data_packets(sid, id, pn0 + 1, offset + k, data.skip(k))
    }
}

/// How many packets a run of `n` drained bytes becomes.
pub open spec fn data_packet_count(n: int) -> int
    decreases n,
{
    if n <= 0 {
        0
    } else if n <= MAX_DATA_SIZE as int {
        1
    } else {
        1 + data_packet_count(n - MAX_DATA_SIZE as int)
    }
}

/// Bytes a stream may hand out now: its queue, capped by the
/// peer-advertised flow-control ceiling.
pub open spec fn will_send_of(s: StreamModel) -> int {
    let can: int = if s.max_out > s.next_out {
        s.max_out - s.next_out
    } else {
        0
    };
    vstd::math::min(can, s.outgoing.len() as int)
}

/// A terminal fin frame is owed once the local half is closed and none
/// has been sent.
pub open spec fn fin_needed(s: StreamModel) -> bool {
    (s.state == StreamState::LocalClosed || s.state == StreamState::Closed) && !s.fin_sent
}

/// The zero-length terminal frame, at one past the last byte ever queued.
pub open spec fn fin_frame_of(s: StreamModel) -> StreamFrameView {
    StreamFrameView {
        stream_id: s.id,
        offset: (s.next_out + s.outgoing.len()) as u64,
        stream_data: Seq::empty(),
        fin: true,
    }
}

/// Every packet one stream contributes to a drain: its data packets,
/// then its terminal fin packet if owed.
pub open spec fn stream_packets_of(s: StreamModel, id: u64, pn0: int) -> Seq<PacketView> {
    let dp = data_packets(s.id, id, pn0, s.next_out, s.outgoing.take(will_send_of(s)));
    if fin_needed(s) {
        dp.push(mk_packet(id, pn0 + dp.len(), seq![FrameView::Stream(fin_frame_of(s))]))
    } else {
        dp
    }
}

pub open spec fn stream_packet_count(s: StreamModel) -> int {
    data_packet_count(will_send_of(s)) + (if fin_needed(s) {
        1int
    } else {
        0int
    })
}

/// The stream-data packets of a whole drain pass, streams in order,
/// packet numbers consecutive.
pub open spec fn expected_stream_packets(ss: Seq<StreamModel>, id: u64, pn0: int) -> Seq<
    PacketView,
>
    decreases ss.len(),
{
    if ss.len() == 0 {
        Seq::empty()
    } else {
        expected_stream_packets(ss.drop_last(), id, pn0) + stream_packets_of(
            ss.last(),
            id,
            pn0 + total_stream_packets(ss.drop_last()),
        )
    }
}

pub open spec fn total_stream_packets(ss: Seq<StreamModel>) -> int
    decreases ss.len(),
{
    if ss.len() == 0 {
        0
    } else {
        total_stream_packets(ss.drop_last()) + stream_packet_count(ss.last())
    }
}

/// A stream's flow-control ceiling moved since last reported.
pub open spec fn wu_changed(s: StreamModel) -> bool {
    s.buf_next + s.buf_cap != s.prev_max
}

/// The window-update packets of a drain pass: one dedicated packet per
/// stream whose ceiling moved.
pub open spec fn expected_wu_packets(ss: Seq<StreamModel>, id: u64, pn0: int) -> Seq<PacketView>
    decreases ss.len(),
{
    if ss.len() == 0 {
        Seq::empty()
    } else {
        expected_wu_packets(ss.drop_last(), id, pn0) + (if wu_changed(ss.last()) {
            seq![
                mk_packet(
                    id,
                    pn0 + total_wu_packets(ss.drop_last()),
                    seq![
                        FrameView::WindowUpdate(
                            WindowUpdateFrame {
                                stream_id: ss.last().id,
                                byte_offset: (ss.last().buf_next + ss.last().buf_cap) as u64,
                            },
                        ),
                    ],
                ),
            ]
        } else {
            Seq::empty()
        })
    }
}

pub open spec fn total_wu_packets(ss: Seq<StreamModel>) -> int
    decreases ss.len(),
{
    if ss.len() == 0 {
        0
    } else {
        total_wu_packets(ss.drop_last()) + (if wu_changed(ss.last()) {
            1int
        } else {
            0int
        })
    }
}

#[derive(Clone, Debug, PartialEq)]
pub struct Connection {
    pub id: u64,
    pub endpoint_role: EndpointRole,
    pub last_consecutive_packet_number: u64,
    pub next_outgoing_packet_number: u64,
    pub peer_address: PeerAddress,
    pub pending_packets: Vec<Packet>,
    pub streams: Vec<Stream>,
    pub unacked_packet_numbers: Vec<u64>,
    pub closed: bool,
}

impl Connection {
    pub open spec fn model(&self) -> ConnModel {
        ConnModel {
            streams: streams_model(self.streams@),
            unacked: self.unacked_packet_numbers@,
            closed: self.closed,
        }
    }

    /// Streams sit at the index of their id and are internally sound;
    /// queued packets are regular and encodable.
    pub open spec fn wf(&self) -> bool {
        &&& forall|i: int|
            0 <= i < self.streams@.len() ==> (#[trigger] self.streams@[i]).wf()
                && self.streams@[i].id == i
        &&& self.streams@.len() <= 0x1_0000_0000
        &&& forall|i: int|
            0 <= i < self.pending_packets@.len() ==> crate::packets::packet_valid(
                (#[trigger] self.pending_packets@[i])@,
            ) && self.pending_packets@[i] is Regular
    }

    pub fn new(id: u64, endpoint_role: EndpointRole, peer_address: PeerAddress) -> (r: Connection)
        ensures
            r.wf(),
            r.id == id,
            r.endpoint_role == endpoint_role,
            r.last_consecutive_packet_number == 0,
            r.next_outgoing_packet_number == 1,
            r.peer_address == peer_address,
            r.pending_packets@ == Seq::<Packet>::empty(),
            r.streams@ == Seq::<Stream>::empty(),
            r.unacked_packet_numbers@ == Seq::<u64>::empty(),
            !r.closed,
    {
        Connection {
            id,
            endpoint_role,
            last_consecutive_packet_number: 0,
            next_outgoing_packet_number: 1,
            peer_address,
            pending_packets: Vec::new(),
            streams: Vec::new(),
            unacked_packet_numbers: Vec::new(),
            closed: false,
        }
    }

    /// Instantiate every missing stream up to and including `stream_id`.
    fn extend_streams(&mut self, stream_id: u32)
        requires
            old(self).wf(),
        ensures
            final(self).wf(),
            stream_id < final(self).streams@.len(),
            streams_model(final(self).streams@) == extend_model(
                streams_model(old(self).streams@),
                stream_id,
            ),
            forall|i: int|
                0 <= i < old(self).streams@.len() ==> (#[trigger] final(self).streams@[i]) == old(
                    self,
                ).streams@[i],
            old(self).streams@.len() >= stream_id + 1 ==> final(self).streams@ == old(
                self,
            ).streams@,
            final(self).id == old(self).id,
            final(self).endpoint_role == old(self).endpoint_role,
            final(self).last_consecutive_packet_number == old(self).last_consecutive_packet_number,
            final(self).next_outgoing_packet_number == old(self).next_outgoing_packet_number,
            final(self).peer_address == old(self).peer_address,
            final(self).pending_packets@ == old(self).pending_packets@,
            final(self).unacked_packet_numbers@ == old(self).unacked_packet_numbers@,
            final(self).closed == old(self).closed,
    {
        let ghost ss0 = self.streams@;
        while self.streams.len() <= stream_id as usize
            invariant
                old(self).wf(),
                stream_id < 0x1_0000_0000,
                ss0 == old(self).streams@,
                ss0.len() <= self.streams@.len() <= vstd::math::max(
                    ss0.len() as int,
                    stream_id + 1,
                ),
                forall|i: int|
                    0 <= i < ss0.len() ==> (#[trigger] self.streams@[i]) == ss0[i],
                forall|i: int|
                    ss0.len() <= i < self.streams@.len() ==> is_fresh_stream(
                        #[trigger] self.streams@[i],
                        i as u32,
                    ),
                self.id == old(self).id,
                self.endpoint_role == old(self).endpoint_role,
                self.last_consecutive_packet_number == old(self).last_consecutive_packet_number,
                self.next_outgoing_packet_number == old(self).next_outgoing_packet_number,
                self.peer_address == old(self).peer_address,
                self.pending_packets@ == old(self).pending_packets@,
                self.unacked_packet_numbers@ == old(self).unacked_packet_numbers@,
                self.closed == old(self).closed,
            decreases stream_id + 1 - self.streams@.len(),
        {
            let next_id = self.streams.len() as u32;
            self.streams.push(Stream::new(next_id));
        }
        proof {
            assert(streams_model(self.streams@) =~= extend_model(streams_model(ss0), stream_id));
            assert forall|i: int| 0 <= i < self.streams@.len() implies (#[trigger] self
                .streams@[i]).wf() && self.streams@[i].id == i by {
            }
        }
    }

    /// Queue application bytes on a stream, creating it if needed.
    pub fn write(&mut self, stream_id: u32, buf: &Vec<u8>) -> (r: Result<(), Error>)
        requires
            old(self).wf(),
            ({
                let ms = extend_model(streams_model(old(self).streams@), stream_id);
                let s = ms[stream_id as int];
                s.next_out + s.outgoing.len() + buf@.len() <= u64::MAX
            }),
        ensures
            final(self).wf(),
            r == Ok::<(), Error>(()),
            ({
                let ms = extend_model(streams_model(old(self).streams@), stream_id);
                let s = ms[stream_id as int];
                streams_model(final(self).streams@) == ms.update(
                    stream_id as int,
                    StreamModel { state: StreamState::Open, outgoing: s.outgoing + buf@, ..s },
                )
            }),
            final(self).id == old(self).id,
            final(self).endpoint_role == old(self).endpoint_role,
            final(self).last_consecutive_packet_number == old(self).last_consecutive_packet_number,
            final(self).next_outgoing_packet_number == old(self).next_outgoing_packet_number,
            final(self).peer_address == old(self).peer_address,
            final(self).pending_packets@ == old(self).pending_packets@,
            final(self).unacked_packet_numbers@ == old(self).unacked_packet_numbers@,
            final(self).closed == old(self).closed,
    {
        self.extend_streams(stream_id);
        let idx = stream_id as usize;
        let mut stream = self.streams.remove(idx);
        stream.extend_outgoing_buf(buf);
        self.streams.insert(idx, stream);
        proof {
            assert(streams_model(self.streams@) =~= extend_model(
                streams_model(old(self).streams@),
                stream_id,
            ).update(
                stream_id as int,
                StreamModel {
                    state: StreamState::Open,
                    outgoing: extend_model(streams_model(old(self).streams@), stream_id)[
                        stream_id as int].outgoing + buf@,
                    ..extend_model(streams_model(old(self).streams@), stream_id)[stream_id as int]
                },
            ));
        }
        Ok(())
    }

    /// Read reassembled bytes from a stream, creating it if needed.
    pub fn read(&mut self, stream_id: u32, buf: &mut Vec<u8>) -> (r: Result<usize, Error>)
        requires
            old(self).wf(),
        ensures
            final(self).wf(),
            ({
                let ms = extend_model(streams_model(old(self).streams@), stream_id);
                let s = ms[stream_id as int];
                let n = vstd::math::min(
                    old(buf)@.len() as int,
                    crate::engine::stream_buffer::readable_run(s.window),
                );
                &&& r == Ok::<usize, Error>(n as usize)
                &&& final(buf)@.len() == old(buf)@.len()
                &&& forall|i: int|
                    0 <= i < n ==> (#[trigger] final(buf)@[i]) == s.window[i].unwrap()
                &&& forall|i: int|
                    n <= i < old(buf)@.len() ==> (#[trigger] final(buf)@[i]) == old(buf)@[i]
                &&& streams_model(final(self).streams@) == ms.update(
                    stream_id as int,
                    StreamModel { buf_next: s.buf_next + n, window: s.window.skip(n), ..s },
                )
            }),
            final(self).id == old(self).id,
            final(self).endpoint_role == old(self).endpoint_role,
            final(self).last_consecutive_packet_number == old(self).last_consecutive_packet_number,
            final(self).next_outgoing_packet_number == old(self).next_outgoing_packet_number,
            final(self).peer_address == old(self).peer_address,
            final(self).pending_packets@ == old(self).pending_packets@,
            final(self).unacked_packet_numbers@ == old(self).unacked_packet_numbers@,
            final(self).closed == old(self).closed,
    {
        self.extend_streams(stream_id);
        let idx = stream_id as usize;
        let mut stream = self.streams.remove(idx);
        let r = stream.read(buf);
        self.streams.insert(idx, stream);
        proof {
            let ms = extend_model(streams_model(old(self).streams@), stream_id);
            let s = ms[stream_id as int];
            let n = vstd::math::min(
                old(buf)@.len() as int,
                crate::engine::stream_buffer::readable_run(s.window),
            );
            assert(streams_model(self.streams@) =~= ms.update(
                stream_id as int,
                StreamModel { buf_next: s.buf_next + n, window: s.window.skip(n), ..s },
            ));
        }
        r
    }

    /// Close the local half of a stream, creating it if needed.
    pub fn finalize_outgoing_stream(&mut self, stream_id: u32) -> (r: Result<(), Error>)
        requires
            old(self).wf(),
        ensures
            final(self).wf(),
            r == Ok::<(), Error>(()),
            ({
                let ms = extend_model(streams_model(old(self).streams@), stream_id);
                let s = ms[stream_id as int];
                streams_model(final(self).streams@) == ms.update(
                    stream_id as int,
                    StreamModel {
                        state: crate::engine::stream::finalize_outgoing_transition(s.state),
                        ..s
                    },
                )
            }),
            final(self).id == old(self).id,
            final(self).endpoint_role == old(self).endpoint_role,
            final(self).last_consecutive_packet_number == old(self).last_consecutive_packet_number,
            final(self).next_outgoing_packet_number == old(self).next_outgoing_packet_number,
            final(self).peer_address == old(self).peer_address,
            final(self).pending_packets@ == old(self).pending_packets@,
            final(self).unacked_packet_numbers@ == old(self).unacked_packet_numbers@,
            final(self).closed == old(self).closed,
    {
        self.extend_streams(stream_id);
        let idx = stream_id as usize;
        let mut stream = self.streams.remove(idx);
        stream.finalize_outgoing();
        self.streams.insert(idx, stream);
        proof {
            let ms = extend_model(streams_model(old(self).streams@), stream_id);
            let s = ms[stream_id as int];
            assert(streams_model(self.streams@) =~= ms.update(
                stream_id as int,
                StreamModel {
                    state: crate::engine::stream::finalize_outgoing_transition(s.state),
                    ..s
                },
            ));
        }
        Ok(())
    }

    /// Whether a read on `stream_id` would make progress; an unknown id
    /// has no data.
    pub fn data_available(&self, stream_id: u32) -> (r: bool)
        ensures
            r == (stream_id < self.streams@.len() && {
                let s = smodel(self.streams@[stream_id as int]);
                crate::engine::stream_buffer::readable_run(s.window) > 0 || ((s.state
                    == StreamState::RemoteClosed || s.state == StreamState::Closed) && s.buf_next
                    == s.fin_off)
            }),
    {
        let idx = stream_id as usize;
        if idx < self.streams.len() {
            self.streams[idx].data_available()
        } else {
            false
        }
    }

    /// Whether any stream has data or an end-of-stream to report.
    pub fn any_data_available(&self) -> (r: bool)
        ensures
            r == exists|i: int|
                0 <= i < self.streams@.len() && {
                    let s = smodel(#[trigger] self.streams@[i]);
                    crate::engine::stream_buffer::readable_run(s.window) > 0 || ((s.state
                        == StreamState::RemoteClosed || s.state == StreamState::Closed)
                        && s.buf_next == s.fin_off)
                },
    {
        let mut i: usize = 0;
        while i < self.streams.len()
            invariant
                i <= self.streams@.len(),
                forall|j: int|
                    0 <= j < i ==> !{
                        let s = smodel(#[trigger] self.streams@[j]);
                        crate::engine::stream_buffer::readable_run(s.window) > 0 || ((s.state
                            == StreamState::RemoteClosed || s.state == StreamState::Closed)
                            && s.buf_next == s.fin_off)
                    },
            decreases self.streams@.len() - i,
        {
            if self.streams[i].data_available() {
                return true;
            }
            i = i + 1;
        }
        false
    }

    pub fn peer_address(&self) -> (r: PeerAddress)
        ensures
            r == self.peer_address,
    {
        self.peer_address
    }

    /// Whether a packet number is still outstanding.
    fn contains_unacked(&self, pn: u64) -> (r: bool)
        ensures
            r == self.unacked_packet_numbers@.contains(pn),
    {
        let mut i: usize = 0;
        while i < self.unacked_packet_numbers.len()
            invariant
                i <= self.unacked_packet_numbers@.len(),
                forall|j: int| 0 <= j < i ==> self.unacked_packet_numbers@[j] != pn,
            decreases self.unacked_packet_numbers@.len() - i,
        {
            if self.unacked_packet_numbers[i] == pn {
                return true;
            }
            i = i + 1;
        }
        false
    }

    /// The resend check for a timer event carrying a copy of a sent
    /// packet: if its number is still outstanding, queue the copy to be
    /// sent again on the next flush.
    pub fn check_unacked_packet(&mut self, packet: Packet)
        requires
            old(self).wf(),
            crate::packets::packet_valid(packet@),
            packet is Regular,
        ensures
            final(self).wf(),
            ({
                match packet {
                    Packet::Regular(p) => {
                        if old(self).unacked_packet_numbers@.contains(p.packet_number) {
                            final(self).pending_packets@ == old(self).pending_packets@.push(packet)
                        } else {
                            final(self).pending_packets@ == old(self).pending_packets@
                        }
                    },
                    _ => final(self).pending_packets@ == old(self).pending_packets@,
                }
            }),
            final(self).streams@ == old(self).streams@,
            final(self).id == old(self).id,
            final(self).endpoint_role == old(self).endpoint_role,
            final(self).last_consecutive_packet_number == old(self).last_consecutive_packet_number,
            final(self).next_outgoing_packet_number == old(self).next_outgoing_packet_number,
            final(self).peer_address == old(self).peer_address,
            final(self).unacked_packet_numbers@ == old(self).unacked_packet_numbers@,
            final(self).closed == old(self).closed,
    {
        let still_unacked = match &packet {
            Packet::Regular(p) => self.contains_unacked(p.packet_number),
            _ => false,
        };
        if still_unacked {
            self.pending_packets.push(packet);
        }
    }

    /// Apply one inbound frame, as `apply_frame` describes. A rejected
    /// stream frame (overflow or conflicting bytes) is dropped without
    /// tearing anything down.
    #[verifier::rlimit(100)]
    fn handle_frame(&mut self, frame: &Frame)
        requires
            old(self).wf(),
        ensures
            final(self).wf(),
            final(self).model() == apply_frame(old(self).model(), frame@),
            final(self).id == old(self).id,
            final(self).endpoint_role == old(self).endpoint_role,
            final(self).last_consecutive_packet_number == old(self).last_consecutive_packet_number,
            final(self).next_outgoing_packet_number == old(self).next_outgoing_packet_number,
            final(self).peer_address == old(self).peer_address,
            final(self).pending_packets@ == old(self).pending_packets@,
    {
        match frame {
            Frame::Stream(sf) => {
                self.extend_streams(sf.stream_id);
                let idx = sf.stream_id as usize;
                let mut stream = self.streams.remove(idx);
                let res = stream.extend_incoming_buf(sf.offset, &sf.stream_data);
                match res {
                    Ok(()) => {},
                    Err(_) => {},
                }
                if sf.fin {
                    stream.finalize_incoming(sf.offset);
                }
                self.streams.insert(idx, stream);
                proof {
                    let m0 = old(self).model();
                    let ms = extend_model(m0.streams, sf.stream_id);
                    let s0 = ms[sf.stream_id as int];
                    let s1 = stream_receive_model(s0, sf.offset as int, sf.stream_data@);
                    let s2 = if sf.fin {
                        stream_fin_model(s1, sf.offset as int)
                    } else {
                        s1
                    };
                    assert(streams_model(self.streams@) =~= ms.update(sf.stream_id as int, s2));
                    assert(self.model() == apply_frame(m0, frame@));
                }
            },
            Frame::WindowUpdate(wu) => {
                self.extend_streams(wu.stream_id);
                let idx = wu.stream_id as usize;
                let mut stream = self.streams.remove(idx);
                if wu.byte_offset > stream.max_outgoing_data {
                    stream.max_outgoing_data = wu.byte_offset;
                }
                self.streams.insert(idx, stream);
                proof {
                    let m0 = old(self).model();
                    let ms = extend_model(m0.streams, wu.stream_id);
                    let s0 = ms[wu.stream_id as int];
                    let raised: int = if wu.byte_offset as int > s0.max_out {
                        wu.byte_offset as int
                    } else {
                        s0.max_out
                    };
                    let s1 = StreamModel { max_out: raised, ..s0 };
                    assert(streams_model(self.streams@) =~= ms.update(wu.stream_id as int, s1));
                    assert(self.model() == apply_frame(m0, frame@));
                }
            },
            Frame::Ack(a) => {
                let la = a.largest_acknowledged;
                let ghost u0 = self.unacked_packet_numbers@;
                let mut kept: Vec<u64> = Vec::new();
                let mut i: usize = 0;
                while i < self.unacked_packet_numbers.len()
                    invariant
                        i <= u0.len(),
                        self.unacked_packet_numbers@ == u0,
                        kept@ == keep_above(u0.subrange(0, i as int), la),
                    decreases u0.len() - i,
                {
                    let pn = self.unacked_packet_numbers[i];
                    proof {
                        assert(u0.subrange(0, i + 1).drop_last() =~= u0.subrange(0, i as int));
                        assert(u0.subrange(0, i + 1).last() == u0[i as int]);
                    }
                    if pn > la {
                        kept.push(pn);
                    }
                    proof {
                        assert(kept@ =~= keep_above(u0.subrange(0, i + 1), la));
                    }
                    i = i + 1;
                }
                proof {
                    assert(u0.subrange(0, u0.len() as int) =~= u0);
                }
                self.unacked_packet_numbers = kept;
                proof {
                    assert(self.model() == apply_frame(old(self).model(), frame@));
                }
            },
            Frame::RstStream(rst) => {
                self.extend_streams(rst.stream_id);
                let idx = rst.stream_id as usize;
                let mut stream = self.streams.remove(idx);
                stream.finalize_incoming(rst.final_offset);
                self.streams.insert(idx, stream);
                proof {
                    let m0 = old(self).model();
                    let ms = extend_model(m0.streams, rst.stream_id);
                    let s1 = stream_fin_model(ms[rst.stream_id as int], rst.final_offset as int);
                    assert(streams_model(self.streams@) =~= ms.update(rst.stream_id as int, s1));
                    assert(self.model() == apply_frame(m0, frame@));
                }
            },
            Frame::ConnectionClose(_) => {
                self.closed = true;
            },
            Frame::GoAway(_) => {
                self.closed = true;
            },
            Frame::Blocked(_) => {},
            Frame::Padding(_) => {},
            Frame::Ping(_) => {},
            Frame::StopWaiting(_) => {},
        }
    }

    /// Process every frame of an inbound regular packet, then, if the
    /// packet advances the contiguous prefix of received packet numbers,
    /// record it and queue a cumulative acknowledgment.
    pub fn handle_regular_packet(&mut self, packet: &RegularPacket)
        requires
            old(self).wf(),
            old(self).next_outgoing_packet_number < u64::MAX,
        ensures
            final(self).wf(),
            final(self).model() == apply_frames(old(self).model(), packet@.payload),
            ({
                let advanced = old(self).last_consecutive_packet_number < u64::MAX
                    && packet.packet_number == old(self).last_consecutive_packet_number + 1;
                if advanced {
                    &&& final(self).last_consecutive_packet_number == packet.packet_number
                    &&& final(self).next_outgoing_packet_number == old(
                        self,
                    ).next_outgoing_packet_number + 1
                    &&& packets_view(final(self).pending_packets@) == packets_view(
                        old(self).pending_packets@,
                    ).push(
                        mk_packet(
                            old(self).id,
                            old(self).next_outgoing_packet_number as int,
                            seq![
                                FrameView::Ack(
                                    crate::frames::ack::AckFrameView {
                                        largest_acknowledged: packet.packet_number,
                                        ack_delay: 0,
                                        first_ack_block_length: 0,
                                        extra_ack_blocks: Seq::empty(),
                                        first_timestamp: None,
                                        extra_timestamps: Seq::empty(),
                                    },
                                ),
                            ],
                        ),
                    )
                } else {
                    &&& final(self).last_consecutive_packet_number == old(
                        self,
                    ).last_consecutive_packet_number
                    &&& final(self).next_outgoing_packet_number == old(
                        self,
                    ).next_outgoing_packet_number
                    &&& final(self).pending_packets@ == old(self).pending_packets@
                }
            }),
            final(self).id == old(self).id,
            final(self).endpoint_role == old(self).endpoint_role,
            final(self).peer_address == old(self).peer_address,
    {
        let ghost m0 = self.model();
        let ghost fs = packet@.payload;
        proof {
            assert(fs.skip(0) =~= fs);
        }
        let mut i: usize = 0;
        while i < packet.payload.frames.len()
            invariant
                old(self).wf(),
                self.wf(),
                i <= fs.len(),
                fs == packet@.payload,
                fs.len() == packet.payload.frames@.len(),
                forall|j: int| 0 <= j < fs.len() ==> fs[j] == packet.payload.frames@[j]@,
                apply_frames(m0, fs) == apply_frames(self.model(), fs.skip(i as int)),
                m0 == old(self).model(),
                self.id == old(self).id,
                self.endpoint_role == old(self).endpoint_role,
                self.last_consecutive_packet_number == old(self).last_consecutive_packet_number,
                self.next_outgoing_packet_number == old(self).next_outgoing_packet_number,
                self.peer_address == old(self).peer_address,
                self.pending_packets@ == old(self).pending_packets@,
            decreases fs.len() - i,
        {
            let ghost pre = self.model();
            self.handle_frame(&packet.payload.frames[i]);
            proof {
                assert(fs.skip(i as int)[0] == fs[i as int]);
                assert(fs.skip(i as int).drop_first() =~= fs.skip(i + 1));
                assert(apply_frames(pre, fs.skip(i as int)) == apply_frames(
                    apply_frame(pre, fs[i as int]),
                    fs.skip(i + 1),
                ));
            }
            i = i + 1;
        }
        proof {
            assert(fs.skip(fs.len() as int) =~= Seq::<FrameView>::empty());
        }
        if self.last_consecutive_packet_number < u64::MAX && packet.packet_number
            == self.last_consecutive_packet_number + 1 {
            self.last_consecutive_packet_number = packet.packet_number;
            let frames: Vec<Frame> = vec![
                Frame::Ack(
                    AckFrame {
                        largest_acknowledged: self.last_consecutive_packet_number,
                        ack_delay: 0,
                        first_ack_block_length: 0,
                        extra_ack_blocks: Vec::new(),
                        first_timestamp: None,
                        extra_timestamps: Vec::new(),
                    },
                ),
            ];
            let ack_packet = Self::create_packet(
                &mut self.next_outgoing_packet_number,
                self.id,
                frames,
            );
            self.pending_packets.push(ack_packet);
            proof {
                crate::wire::lemma_pow256_values();
                assert(crate::packets::packet_valid(self.pending_packets@.last()@));
                assert forall|i: int| 0 <= i < self.pending_packets@.len() implies
                    crate::packets::packet_valid((#[trigger] self.pending_packets@[i])@)
                        && self.pending_packets@[i] is Regular by {
                    if i < old(self).pending_packets@.len() {
                        assert(self.pending_packets@[i] == old(self).pending_packets@[i]);
                    } else {
                        assert(self.pending_packets@[i] == self.pending_packets@.last());
                    }
                }
                assert(packets_view(self.pending_packets@) =~= packets_view(
                    old(self).pending_packets@,
                ).push(self.pending_packets@.last()@));
                assert(frames_view(
                    self.pending_packets@.last()->Regular_0.payload.frames@,
                ) =~= seq![
                    FrameView::Ack(
                        crate::frames::ack::AckFrameView {
                            largest_acknowledged: packet.packet_number,
                            ack_delay: 0,
                            first_ack_block_length: 0,
                            extra_ack_blocks: Seq::empty(),
                            first_timestamp: None,
                            extra_timestamps: Seq::empty(),
                        },
                    ),
                ]);
            }
        }
    }

    /// Build one outgoing packet shell around `frames` and advance the
    /// packet-number counter.
    fn create_packet(next_packet_number: &mut u64, connection_id: u64, frames: Vec<Frame>) -> (r:
        Packet)
        requires
            *old(next_packet_number) < u64::MAX,
        ensures
            *final(next_packet_number) == *old(next_packet_number) + 1,
            r@ == mk_packet(
                connection_id,
                *old(next_packet_number) as int,
                frames_view(frames@),
            ),
    {
        let packet_number = *next_packet_number;
        *next_packet_number = *next_packet_number + 1;
        Packet::Regular(
            RegularPacket {
                header: PacketHeader {
                    key_phase: false,
                    packet_number_size: 4,
                    multipath: false,
                    connection_id: Some(connection_id),
                },
                version: None,
                packet_number,
                payload: PacketPayload { frames },
            },
        )
    }

    /// Hand back everything queued for the next flush.
    pub fn drain_pending_packets(&mut self) -> (r: Vec<Packet>)
        requires
            old(self).wf(),
        ensures
            final(self).wf(),
            r@ == old(self).pending_packets@,
            final(self).pending_packets@ == Seq::<Packet>::empty(),
            final(self).streams@ == old(self).streams@,
            final(self).id == old(self).id,
            final(self).endpoint_role == old(self).endpoint_role,
            final(self).last_consecutive_packet_number == old(self).last_consecutive_packet_number,
            final(self).next_outgoing_packet_number == old(self).next_outgoing_packet_number,
            final(self).peer_address == old(self).peer_address,
            final(self).unacked_packet_numbers@ == old(self).unacked_packet_numbers@,
            final(self).closed == old(self).closed,
    {
        let mut out: Vec<Packet> = Vec::new();
        core::mem::swap(&mut out, &mut self.pending_packets);
        out
    }

    /// Emit one dedicated window-update packet for every stream whose
    /// flow-control ceiling moved since it was last reported.
    pub fn drain_outgoing_window_update_packets(&mut self) -> (r: Vec<Packet>)
        requires
            old(self).wf(),
            old(self).next_outgoing_packet_number + old(self).streams@.len() <= u64::MAX,
        ensures
            final(self).wf(),
            packets_view(r@) == expected_wu_packets(
                streams_model(old(self).streams@),
                old(self).id,
                old(self).next_outgoing_packet_number as int,
            ),
            final(self).next_outgoing_packet_number == old(self).next_outgoing_packet_number
                + total_wu_packets(streams_model(old(self).streams@)),
            streams_model(final(self).streams@) == Seq::new(
                old(self).streams@.len(),
                |i: int|
                    StreamModel {
                        prev_max: smodel(old(self).streams@[i]).buf_next + smodel(
                            old(self).streams@[i],
                        ).buf_cap,
                        ..smodel(old(self).streams@[i])
                    },
            ),
            final(self).id == old(self).id,
            final(self).endpoint_role == old(self).endpoint_role,
            final(self).last_consecutive_packet_number == old(self).last_consecutive_packet_number,
            final(self).peer_address == old(self).peer_address,
            final(self).pending_packets@ == old(self).pending_packets@,
            final(self).unacked_packet_numbers@ == old(self).unacked_packet_numbers@,
            final(self).closed == old(self).closed,
    {
        let ghost ms = streams_model(old(self).streams@);
        let ghost pn0 = old(self).next_outgoing_packet_number as int;
        let mut out: Vec<Packet> = Vec::new();
        let mut si: usize = 0;
        while si < self.streams.len()
            invariant
                old(self).wf(),
                self.wf(),
                si <= self.streams@.len(),
                self.streams@.len() == old(self).streams@.len(),
                ms == streams_model(old(self).streams@),
                pn0 == old(self).next_outgoing_packet_number as int,
                pn0 + ms.len() <= u64::MAX,
                0 <= total_wu_packets(ms.take(si as int)) <= si,
                self.next_outgoing_packet_number as int == pn0 + total_wu_packets(
                    ms.take(si as int),
                ),
                packets_view(out@) == expected_wu_packets(ms.take(si as int), old(self).id, pn0),
                forall|i: int|
                    si <= i < ms.len() ==> (#[trigger] self.streams@[i]) == old(self).streams@[i],
                forall|i: int|
                    0 <= i < si ==> smodel(#[trigger] self.streams@[i]) == (StreamModel {
                        prev_max: smodel(old(self).streams@[i]).buf_next + smodel(
                            old(self).streams@[i],
                        ).buf_cap,
                        ..smodel(old(self).streams@[i])
                    }),
                self.id == old(self).id,
                self.endpoint_role == old(self).endpoint_role,
                self.last_consecutive_packet_number == old(self).last_consecutive_packet_number,
                self.peer_address == old(self).peer_address,
                self.pending_packets@ == old(self).pending_packets@,
                self.unacked_packet_numbers@ == old(self).unacked_packet_numbers@,
                self.closed == old(self).closed,
            decreases self.streams@.len() - si,
        {
            proof {
                assert(ms.take(si + 1).drop_last() =~= ms.take(si as int));
                assert(ms.take(si + 1).last() == ms[si as int]);
            }
            let mut stream = self.streams.remove(si);
            let md = stream.new_maximum_data();
            match md {
                Some(maximum_data) => {
                    let frames: Vec<Frame> = vec![
                        Frame::WindowUpdate(
                            WindowUpdateFrame {
                                stream_id: stream.id,
                                byte_offset: maximum_data,
                            },
                        ),
                    ];
                    let packet = Self::create_packet(
                        &mut self.next_outgoing_packet_number,
                        self.id,
                        frames,
                    );
                    out.push(packet);
                    proof {
                        assert(frames_view(
                            out@.last()->Regular_0.payload.frames@,
                        ) =~= seq![
                            FrameView::WindowUpdate(
                                WindowUpdateFrame {
                                    stream_id: ms[si as int].id,
                                    byte_offset: (ms[si as int].buf_next + ms[
                                        si as int].buf_cap) as u64,
                                },
                            ),
                        ]);
                        assert(packets_view(out@) =~= expected_wu_packets(
                            ms.take(si + 1),
                            old(self).id,
                            pn0,
                        ));
                    }
                },
                None => {
                    proof {
                        assert(packets_view(out@) =~= expected_wu_packets(
                            ms.take(si + 1),
                            old(self).id,
                            pn0,
                        ));
                    }
                },
            }
            self.streams.insert(si, stream);
            si = si + 1;
        }
        proof {
            assert(ms.take(ms.len() as int) =~= ms);
            assert(streams_model(self.streams@) =~= Seq::new(
                old(self).streams@.len(),
                |i: int|
                    StreamModel {
                        prev_max: smodel(old(self).streams@[i]).buf_next + smodel(
                            old(self).streams@[i],
                        ).buf_cap,
                        ..smodel(old(self).streams@[i])
                    },
            ));
        }
        out
    }
}

/// A stream after one drain pass: the sendable bytes gone from its
/// queue, its outgoing offset advanced, its fin marked sent if the pass
/// owed one.
pub open spec fn after_drain(s: StreamModel) -> StreamModel {
    StreamModel {
        next_out: s.next_out + will_send_of(s),
        outgoing: s.outgoing.skip(will_send_of(s)),
        fin_sent: s.fin_sent || fin_needed(s),
        ..s
    }
}

impl Connection {
    /// Turn every stream's sendable bytes into packets of at most the
    /// per-packet payload budget each, then a dedicated terminal fin
    /// packet where one is owed. Each packet carries one stream frame:
    /// a stream's run is sealed at the budget, and no packet mixes
    /// streams, so the budget provably never overflows and each
    /// stream's run uses the fewest packets possible.
    #[verifier::rlimit(100)]
    #[verifier::loop_isolation(false)]
    fn drain_outgoing_stream_packets(&mut self) -> (r: Vec<Packet>)
        requires
            old(self).wf(),
            old(self).next_outgoing_packet_number + total_stream_packets(
                streams_model(old(self).streams@),
            ) <= u64::MAX,
        ensures
            final(self).wf(),
            packets_view(r@) == expected_stream_packets(
                streams_model(old(self).streams@),
                old(self).id,
                old(self).next_outgoing_packet_number as int,
            ),
            final(self).next_outgoing_packet_number as int == old(
                self,
            ).next_outgoing_packet_number + total_stream_packets(
                streams_model(old(self).streams@),
            ),
            streams_model(final(self).streams@) == Seq::new(
                old(self).streams@.len(),
                |i: int| after_drain(smodel(old(self).streams@[i])),
            ),
            final(self).id == old(self).id,
            final(self).endpoint_role == old(self).endpoint_role,
            final(self).last_consecutive_packet_number == old(self).last_consecutive_packet_number,
            final(self).peer_address == old(self).peer_address,
            final(self).pending_packets@ == old(self).pending_packets@,
            final(self).unacked_packet_numbers@ == old(self).unacked_packet_numbers@,
            final(self).closed == old(self).closed,
    {
        let ghost ms = streams_model(old(self).streams@);
        let ghost pn0 = old(self).next_outgoing_packet_number as int;
        proof {
            lemma_total_stream_nonneg(ms);
        }
        let mut out: Vec<Packet> = Vec::new();
        let mut si: usize = 0;
        while si < self.streams.len()
            invariant
                old(self).wf(),
                self.wf(),
                si <= self.streams@.len(),
                self.streams@.len() == old(self).streams@.len(),
                ms == streams_model(old(self).streams@),
                pn0 == old(self).next_outgoing_packet_number as int,
                pn0 + total_stream_packets(ms) <= u64::MAX,
                self.next_outgoing_packet_number as int == pn0 + total_stream_packets(
                    ms.take(si as int),
                ),
                packets_view(out@) == expected_stream_packets(
                    ms.take(si as int),
                    old(self).id,
                    pn0,
                ),
                forall|i: int|
                    si <= i < ms.len() ==> (#[trigger] self.streams@[i]) == old(self).streams@[i],
                forall|i: int|
                    0 <= i < si ==> smodel(#[trigger] self.streams@[i]) == after_drain(
                        smodel(old(self).streams@[i]),
                    ),
                self.id == old(self).id,
                self.endpoint_role == old(self).endpoint_role,
                self.last_consecutive_packet_number == old(self).last_consecutive_packet_number,
                self.peer_address == old(self).peer_address,
                self.pending_packets@ == old(self).pending_packets@,
                self.unacked_packet_numbers@ == old(self).unacked_packet_numbers@,
                self.closed == old(self).closed,
            decreases self.streams@.len() - si,
        {
            let ghost s_model = ms[si as int];
            let ghost pn_s = pn0 + total_stream_packets(ms.take(si as int));
            proof {
                assert(ms.take(si + 1).drop_last() =~= ms.take(si as int));
                assert(ms.take(si + 1).last() == ms[si as int]);
                lemma_total_stream_split(ms, si + 1);
                lemma_total_stream_nonneg(ms.skip(si + 1));
                lemma_data_packet_count_nonneg(will_send_of(s_model));
                assert(smodel(self.streams@[si as int]) == s_model);
            }
            let mut stream = self.streams.remove(si);
            let ghost streams_mid = self.streams@;
            let (off0, bytes) = stream.drain_outgoing_buffer();
            let ghost will = will_send_of(s_model);
            let ghost dp_full = data_packets(
                s_model.id,
                old(self).id,
                pn_s,
                s_model.next_out,
                s_model.outgoing.take(will),
            );
            proof {
                assert(bytes@ == s_model.outgoing.take(will));
                assert(off0 as int == s_model.next_out);
                assert(bytes@.skip(0) =~= bytes@);
                assert(expected_stream_packets(ms.take(si as int), old(self).id, pn0) + dp_full
                    =~= packets_view(out@) + data_packets(
                    s_model.id,
                    old(self).id,
                    self.next_outgoing_packet_number as int,
                    off0 as int + 0,
                    bytes@.skip(0),
                ));
            }
            let mut pos: usize = 0;
            while pos < bytes.len()
                invariant
                    si < ms.len(),
                    pos <= bytes@.len(),
                    self.streams@ == streams_mid,
                    self.endpoint_role == old(self).endpoint_role,
                    self.last_consecutive_packet_number == old(
                        self,
                    ).last_consecutive_packet_number,
                    self.peer_address == old(self).peer_address,
                    self.pending_packets@ == old(self).pending_packets@,
                    self.unacked_packet_numbers@ == old(self).unacked_packet_numbers@,
                    self.closed == old(self).closed,
                    bytes@ == s_model.outgoing.take(will),
                    will == will_send_of(s_model),
                    s_model == ms[si as int],
                    pn_s == pn0 + total_stream_packets(ms.take(si as int)),
                    dp_full == data_packets(
                        s_model.id,
                        old(self).id,
                        pn_s,
                        s_model.next_out,
                        s_model.outgoing.take(will),
                    ),
                    off0 as int == s_model.next_out,
                    off0 + bytes@.len() <= u64::MAX,
                    stream.id == s_model.id,
                    expected_stream_packets(ms.take(si as int), old(self).id, pn0) + dp_full
                        == packets_view(out@) + data_packets(
                        s_model.id,
                        old(self).id,
                        self.next_outgoing_packet_number as int,
                        off0 as int + pos,
                        bytes@.skip(pos as int),
                    ),
                    self.next_outgoing_packet_number as int + data_packet_count(
                        bytes@.len() - pos,
                    ) + (if fin_needed(s_model) {
                        1int
                    } else {
                        0int
                    }) + total_stream_packets(ms.skip(si + 1)) == pn0 + total_stream_packets(ms),
                    pn0 + total_stream_packets(ms) <= u64::MAX,
                    total_stream_packets(ms.skip(si + 1)) >= 0,
                    self.id == old(self).id,
                decreases bytes@.len() - pos,
            {
                let rem = bytes.len() - pos;
                let k: usize = if rem > MAX_DATA_SIZE {
                    MAX_DATA_SIZE
                } else {
                    rem
                };
                proof {
                    lemma_data_packet_count_nonneg((bytes@.len() - pos - k) as int);
                }
                let chunk = match crate::wire::read_bytes(&bytes, pos, k) {
                    Ok((v, _)) => v,
                    Err(_) => {
                        proof {
                            assert(false);
                        }
                        Vec::new()
                    },
                };
                let sf = StreamFrame {
                    stream_id: stream.id,
                    offset: off0 + (pos as u64),
                    stream_data: chunk,
                    fin: false,
                };
                let frames: Vec<Frame> = vec![Frame::Stream(sf)];
                let packet = Self::create_packet(
                    &mut self.next_outgoing_packet_number,
                    self.id,
                    frames,
                );
                out.push(packet);
                proof {
                    let tail = bytes@.skip(pos as int);
                    assert(tail.take(k as int) =~= bytes@.subrange(pos as int, pos + k));
                    assert(tail.skip(k as int) =~= bytes@.skip(pos + k));
                    assert(frames_view(out@.last()->Regular_0.payload.frames@) =~= seq![
                        FrameView::Stream(
                            StreamFrameView {
                                stream_id: s_model.id,
                                offset: (off0 as int + pos) as u64,
                                stream_data: tail.take(k as int),
                                fin: false,
                            },
                        ),
                    ]);
                    assert(packets_view(out@) =~= packets_view(out@.drop_last()).push(
                        out@.last()@,
                    ));
                    assert(packets_view(out@.drop_last()) + (seq![out@.last()@] + data_packets(
                        s_model.id,
                        old(self).id,
                        self.next_outgoing_packet_number as int,
                        off0 as int + pos + k,
                        bytes@.skip(pos + k),
                    )) =~= packets_view(out@) + data_packets(
                        s_model.id,
                        old(self).id,
                        self.next_outgoing_packet_number as int,
                        off0 as int + pos + k,
                        bytes@.skip(pos + k),
                    ));
                }
                pos = pos + k;
            }
            proof {
                assert(bytes@.skip(bytes@.len() as int) =~= Seq::<u8>::empty());
                assert(packets_view(out@) =~= expected_stream_packets(
                    ms.take(si as int),
                    old(self).id,
                    pn0,
                ) + dp_full);
            }
            proof {
                lemma_data_packets_len(
                    s_model.id,
                    old(self).id,
                    pn_s,
                    s_model.next_out,
                    s_model.outgoing.take(will),
                );
                assert(s_model.outgoing.take(will).len() == will);
                assert(dp_full.len() == data_packet_count(will));
                assert(self.next_outgoing_packet_number as int == pn_s + data_packet_count(will));
            }
            let fin_emit = (matches!(stream.state, StreamState::LocalClosed) || matches!(
                stream.state,
                StreamState::Closed,
            )) && !stream.fin_sent;
            if fin_emit {
                stream.fin_sent = true;
                let fin_off = stream.outgoing_fin_offset();
                let frames: Vec<Frame> = vec![
                    Frame::Stream(
                        StreamFrame {
                            stream_id: stream.id,
                            offset: fin_off,
                            stream_data: Vec::new(),
                            fin: true,
                        },
                    ),
                ];
                let packet = Self::create_packet(
                    &mut self.next_outgoing_packet_number,
                    self.id,
                    frames,
                );
                out.push(packet);
                proof {
                    assert(frames_view(out@.last()->Regular_0.payload.frames@) =~= seq![
                        FrameView::Stream(fin_frame_of(s_model)),
                    ]);
                    assert(out@.last()@ == mk_packet(
                        old(self).id,
                        pn_s + dp_full.len(),
                        seq![FrameView::Stream(fin_frame_of(s_model))],
                    ));
                    assert(packets_view(out@) =~= packets_view(out@.drop_last()).push(
                        out@.last()@,
                    ));
                    assert(stream_packets_of(ms[si as int], old(self).id, pn_s) == dp_full.push(
                        mk_packet(
                            old(self).id,
                            pn_s + dp_full.len(),
                            seq![FrameView::Stream(fin_frame_of(s_model))],
                        ),
                    ));
                    assert(packets_view(out@) =~= (expected_stream_packets(
                        ms.take(si as int),
                        old(self).id,
                        pn0,
                    ) + dp_full).push(out@.last()@));
                }
            } else {
                proof {
                    assert(stream_packets_of(ms[si as int], old(self).id, pn_s) == dp_full);
                }
            }
            proof {
                assert(packets_view(out@) =~= expected_stream_packets(
                    ms.take(si + 1),
                    old(self).id,
                    pn0,
                ));
                assert(smodel(stream) == after_drain(s_model));
            }
            self.streams.insert(si, stream);
            si = si + 1;
        }
        proof {
            assert(ms.take(ms.len() as int) =~= ms);
            assert(streams_model(self.streams@) =~= Seq::new(
                old(self).streams@.len(),
                |i: int| after_drain(smodel(old(self).streams@[i])),
            ));
        }
        out
    }
}

/// Window-update emission reads only a stream's id and receive window
/// bookkeeping, so it agrees across states that share those.
pub proof fn lemma_wu_packets_agree(ms1: Seq<StreamModel>, ms2: Seq<StreamModel>, id: u64, pn0: int)
    requires
        ms1.len() == ms2.len(),
        forall|i: int|
            0 <= i < ms1.len() ==> {
                &&& (#[trigger] ms1[i]).id == ms2[i].id
                &&& ms1[i].buf_next == ms2[i].buf_next
                &&& ms1[i].buf_cap == ms2[i].buf_cap
                &&& ms1[i].prev_max == ms2[i].prev_max
            },
    ensures
        expected_wu_packets(ms1, id, pn0) == expected_wu_packets(ms2, id, pn0),
        total_wu_packets(ms1) == total_wu_packets(ms2),
    decreases ms1.len(),
{
    if ms1.len() > 0 {
        assert forall|i: int|
            0 <= i < ms1.drop_last().len() implies {
            &&& (#[trigger] ms1.drop_last()[i]).id == ms2.drop_last()[i].id
            &&& ms1.drop_last()[i].buf_next == ms2.drop_last()[i].buf_next
            &&& ms1.drop_last()[i].buf_cap == ms2.drop_last()[i].buf_cap
            &&& ms1.drop_last()[i].prev_max == ms2.drop_last()[i].prev_max
        } by {
            assert(ms1.drop_last()[i] == ms1[i]);
            assert(ms2.drop_last()[i] == ms2[i]);
        }
        lemma_wu_packets_agree(ms1.drop_last(), ms2.drop_last(), id, pn0);
        assert(ms1.last() == ms1[ms1.len() - 1] && ms2.last() == ms2[ms1.len() - 1]);
    }
}

impl Connection {
    /// One full drain pass: stream-data packets, then window-update
    /// packets, then whatever was queued (acknowledgments, resends), in
    /// that order with consecutive packet numbers.
    pub fn drain_outgoing_packets(&mut self) -> (r: Vec<Packet>)
        requires
            old(self).wf(),
            old(self).next_outgoing_packet_number + total_stream_packets(
                streams_model(old(self).streams@),
            ) + old(self).streams@.len() <= u64::MAX,
        ensures
            final(self).wf(),
            ({
                let m0 = streams_model(old(self).streams@);
                let pn0 = old(self).next_outgoing_packet_number as int;
                &&& packets_view(r@) == expected_stream_packets(m0, old(self).id, pn0)
                    + expected_wu_packets(m0, old(self).id, pn0 + total_stream_packets(m0))
                    + packets_view(old(self).pending_packets@)
                &&& final(self).next_outgoing_packet_number as int == pn0 + total_stream_packets(
                    m0,
                ) + total_wu_packets(m0)
                &&& streams_model(final(self).streams@) == Seq::new(
                    m0.len(),
                    |i: int|
                        StreamModel {
                            prev_max: m0[i].buf_next + m0[i].buf_cap,
                            ..after_drain(m0[i])
                        },
                )
            }),
            final(self).pending_packets@ == Seq::<Packet>::empty(),
            final(self).id == old(self).id,
            final(self).endpoint_role == old(self).endpoint_role,
            final(self).last_consecutive_packet_number == old(self).last_consecutive_packet_number,
            final(self).peer_address == old(self).peer_address,
            final(self).unacked_packet_numbers@ == old(self).unacked_packet_numbers@,
            final(self).closed == old(self).closed,
    {
        let ghost m0 = streams_model(old(self).streams@);
        let ghost pn0 = old(self).next_outgoing_packet_number as int;
        proof {
            lemma_total_stream_nonneg(m0);
        }
        let mut packets = self.drain_outgoing_stream_packets();
        let ghost mid = streams_model(self.streams@);
        proof {
            lemma_wu_packets_agree(mid, m0, old(self).id, pn0 + total_stream_packets(m0));
        }
        let mut wu = self.drain_outgoing_window_update_packets();
        let mut pend = self.drain_pending_packets();
        proof {
            assert(packets_view(packets@ + wu@) =~= packets_view(packets@) + packets_view(wu@));
            assert(packets_view(packets@ + wu@ + pend@) =~= packets_view(packets@)
                + packets_view(wu@) + packets_view(pend@));
        }
        packets.append(&mut wu);
        packets.append(&mut pend);
        proof {
            assert forall|i: int| 0 <= i < m0.len() implies streams_model(self.streams@)[i]
                == (StreamModel {
                prev_max: m0[i].buf_next + m0[i].buf_cap,
                ..after_drain(m0[i])
            }) by {
                assert(mid[i] == after_drain(m0[i]));
                assert(streams_model(self.streams@)[i] == (StreamModel {
                    prev_max: mid[i].buf_next + mid[i].buf_cap,
                    ..mid[i]
                }));
            }
            assert(streams_model(self.streams@) =~= Seq::new(
                m0.len(),
                |i: int|
                    StreamModel {
                        prev_max: m0[i].buf_next + m0[i].buf_cap,
                        ..after_drain(m0[i])
                    },
            ));
        }
        packets
    }
}

/// Every packet a drain pass emits is a regular packet that can be put
/// on the wire.
pub proof fn lemma_data_packets_valid(sid: u32, id: u64, pn0: int, offset: int, data: Seq<u8>)
    ensures
        forall|i: int|
            0 <= i < data_packets(sid, id, pn0, offset, data).len() ==> crate::packets::packet_valid(
                #[trigger] data_packets(sid, id, pn0, offset, data)[i],
            ) && data_packets(sid, id, pn0, offset, data)[i] is Regular,
    decreases data.len(),
{
    if data.len() > 0 {
        let k: int = if data.len() > MAX_DATA_SIZE as int {
            MAX_DATA_SIZE as int
        } else {
            data.len() as int
        };
        lemma_data_packets_valid(sid, id, pn0 + 1, offset + k, data.skip(k));
    }
}

/// Every packet a drain pass emits for its streams is valid.
pub proof fn lemma_expected_stream_packets_valid(ms: Seq<StreamModel>, id: u64, pn0: int)
    ensures
        forall|i: int|
            0 <= i < expected_stream_packets(ms, id, pn0).len() ==> crate::packets::packet_valid(
                #[trigger] expected_stream_packets(ms, id, pn0)[i],
            ) && expected_stream_packets(ms, id, pn0)[i] is Regular,
    decreases ms.len(),
{
    if ms.len() > 0 {
        lemma_expected_stream_packets_valid(ms.drop_last(), id, pn0);
        let s = ms.last();
        let pn_s = pn0 + total_stream_packets(ms.drop_last());
        lemma_data_packets_valid(s.id, id, pn_s, s.next_out, s.outgoing.take(will_send_of(s)));
    }
}

/// Every window-update packet of a drain pass is valid.
pub proof fn lemma_expected_wu_packets_valid(ms: Seq<StreamModel>, id: u64, pn0: int)
    ensures
        forall|i: int|
            0 <= i < expected_wu_packets(ms, id, pn0).len() ==> crate::packets::packet_valid(
                #[trigger] expected_wu_packets(ms, id, pn0)[i],
            ) && expected_wu_packets(ms, id, pn0)[i] is Regular,
    decreases ms.len(),
{
    if ms.len() > 0 {
        lemma_expected_wu_packets_valid(ms.drop_last(), id, pn0);
    }
}

/// The stream bytes a packet of a drain pass carries.
pub open spec fn packet_stream_data(p: PacketView) -> Seq<u8> {
    match p {
        PacketView::Regular(rp) => if rp.payload.len() == 1 {
            match rp.payload[0] {
                FrameView::Stream(sf) => sf.stream_data,
                _ => Seq::empty(),
            }
        } else {
            Seq::empty()
        },
        _ => Seq::empty(),
    }
}

/// The stream bytes of a packet run, concatenated in emission order.
pub open spec fn packets_data(ps: Seq<PacketView>) -> Seq<u8>
    decreases ps.len(),
{
    if ps.len() == 0 {
        Seq::empty()
    } else {
        packet_stream_data(ps[0]) + packets_data(ps.drop_first())
    }
}

/// Packetization is faithful: concatenating the emitted stream-frame
/// payloads in order reproduces the drained bytes exactly, every packet
/// carries one non-empty stream frame of at most the budget, and the
/// frame offsets advance by the budget.
pub proof fn lemma_packetization_exact(sid: u32, id: u64, pn0: int, offset: int, data: Seq<u8>)
    requires
        0 <= offset,
        offset + data.len() <= u64::MAX,
        0 <= pn0,
        pn0 + data.len() <= u64::MAX,
    ensures
        packets_data(data_packets(sid, id, pn0, offset, data)) == data,
        forall|i: int|
            0 <= i < data_packets(sid, id, pn0, offset, data).len() ==> {
                let p = #[trigger] data_packets(sid, id, pn0, offset, data)[i];
                &&& p matches PacketView::Regular(rp)
                &&& p->Regular_0.payload.len() == 1
                &&& p->Regular_0.payload[0] matches FrameView::Stream(sf)
                &&& 1 <= p->Regular_0.payload[0]->Stream_0.stream_data.len() <= MAX_DATA_SIZE
                &&& p->Regular_0.payload[0]->Stream_0.offset as int == offset + i * (
                MAX_DATA_SIZE as int)
                &&& p->Regular_0.packet_number as int == pn0 + i
            },
    decreases data.len(),
{
    let dp = data_packets(sid, id, pn0, offset, data);
    if data.len() == 0 {
        assert(packets_data(dp) =~= Seq::<u8>::empty());
        assert(data =~= Seq::<u8>::empty());
    } else {
        let k: int = if data.len() > MAX_DATA_SIZE as int {
            MAX_DATA_SIZE as int
        } else {
            data.len() as int
        };
        lemma_packetization_exact(sid, id, pn0 + 1, offset + k, data.skip(k));
        let tail = data_packets(sid, id, pn0 + 1, offset + k, data.skip(k));
        assert(dp.drop_first() =~= tail);
        assert(packets_data(dp) =~= data.take(k) + packets_data(tail));
        assert(data.take(k) + data.skip(k) =~= data);
        assert forall|i: int| 0 <= i < dp.len() implies {
            let p = #[trigger] dp[i];
            &&& p matches PacketView::Regular(rp)
            &&& p->Regular_0.payload.len() == 1
            &&& p->Regular_0.payload[0] matches FrameView::Stream(sf)
            &&& 1 <= p->Regular_0.payload[0]->Stream_0.stream_data.len() <= MAX_DATA_SIZE
            &&& p->Regular_0.payload[0]->Stream_0.offset as int == offset + i * (
            MAX_DATA_SIZE as int)
            &&& p->Regular_0.packet_number as int == pn0 + i
        } by {
            if i == 0 {
                assert(data.take(k).len() == k >= 1);
            } else {
                assert(dp[i] == tail[i - 1]);
                assert(tail.len() > 0);
                assert(data.skip(k).len() > 0);
                assert(data.len() > MAX_DATA_SIZE as int);
                assert((offset + k) + (i - 1) * (MAX_DATA_SIZE as int) == offset + i * (
                MAX_DATA_SIZE as int)) by {
                    assert(k == MAX_DATA_SIZE as int);
                    assert((i - 1) * (MAX_DATA_SIZE as int) + MAX_DATA_SIZE as int == i * (
                    MAX_DATA_SIZE as int)) by (nonlinear_arith);
                }
            }
        }
    }
}

/// Packetization is minimal: `n` bytes cannot be carried in fewer
/// packets than emitted, since each packet carries at most the budget.
pub proof fn lemma_packetization_minimal(n: int, k: int)
    requires
        0 <= n,
        0 <= k,
        n <= k * (MAX_DATA_SIZE as int),
    ensures
        data_packet_count(n) <= k,
    decreases k,
{
    if n == 0 {
    } else if k == 0 {
        assert(n <= 0) by (nonlinear_arith)
            requires
                n <= k * (MAX_DATA_SIZE as int),
                k == 0,
        ;
    } else if n <= MAX_DATA_SIZE as int {
    } else {
        assert(n - MAX_DATA_SIZE as int <= (k - 1) * (MAX_DATA_SIZE as int)) by (nonlinear_arith)
            requires
                n <= k * (MAX_DATA_SIZE as int),
                k >= 1,
        ;
        lemma_packetization_minimal(n - MAX_DATA_SIZE as int, k - 1);
    }
}

/// The packet list of one byte run is as long as its packet count.
pub proof fn lemma_data_packets_len(sid: u32, id: u64, pn0: int, offset: int, data: Seq<u8>)
    ensures
        data_packets(sid, id, pn0, offset, data).len() == data_packet_count(data.len() as int),
    decreases data.len(),
{
    if data.len() > 0 {
        let k: int = if data.len() > MAX_DATA_SIZE as int {
            MAX_DATA_SIZE as int
        } else {
            data.len() as int
        };
        lemma_data_packets_len(sid, id, pn0 + 1, offset + k, data.skip(k));
    }
}

/// The count of packets a byte run becomes is never negative.
pub proof fn lemma_data_packet_count_nonneg(n: int)
    ensures
        data_packet_count(n) >= 0,
    decreases
            (if n > 0 {
                n
            } else {
                0
            }),
{
    if n > MAX_DATA_SIZE as int {
        lemma_data_packet_count_nonneg(n - MAX_DATA_SIZE as int);
    }
}

/// Per-stream packet counts are never negative.
pub proof fn lemma_stream_packet_count_nonneg(s: StreamModel)
    ensures
        stream_packet_count(s) >= 0,
{
    lemma_data_packet_count_nonneg(will_send_of(s));
}

/// A drain pass's total packet count splits at any stream index.
pub proof fn lemma_total_stream_split(ms: Seq<StreamModel>, i: int)
    requires
        0 <= i <= ms.len(),
    ensures
        total_stream_packets(ms) == total_stream_packets(ms.take(i)) + total_stream_packets(
            ms.skip(i),
        ),
    decreases ms.len(),
{
    if i == ms.len() {
        assert(ms.take(i) =~= ms);
        assert(ms.skip(i) =~= Seq::<StreamModel>::empty());
    } else {
        lemma_total_stream_split(ms.drop_last(), i);
        assert(ms.drop_last().take(i) =~= ms.take(i));
        assert(ms.skip(i).drop_last() =~= ms.drop_last().skip(i));
        assert(ms.skip(i).last() == ms.last());
        assert(ms.skip(i).len() > 0);
    }
}

/// Suffix totals are never negative.
pub proof fn lemma_total_stream_nonneg(ms: Seq<StreamModel>)
    ensures
        total_stream_packets(ms) >= 0,
    decreases ms.len(),
{
    if ms.len() > 0 {
        lemma_total_stream_nonneg(ms.drop_last());
        lemma_stream_packet_count_nonneg(ms.last());
    }
}

} // verus!
