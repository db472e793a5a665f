pub mod ack;
pub mod blocked;
pub mod connection_close;
pub mod goaway;
pub mod padding;
pub mod ping;
pub mod rst_stream;
pub mod stop_waiting;
pub mod stream;
pub mod utils;
pub mod window_update;

use vstd::prelude::*;

use crate::errors::Error;
use crate::wire::{decode_result_matches, valid_pns};

verus! {

/// One frame of a regular packet's payload, dispatched on the wire by a
/// type octet: fixed type values for most frames, the two high bits for
/// ack frames, the top bit for stream frames.
#[derive(Clone, Debug, PartialEq, Eq)]
pub enum Frame {
    Ack(ack::AckFrame),
    Blocked(blocked::BlockedFrame),
    ConnectionClose(connection_close::ConnectionCloseFrame),
    GoAway(goaway::GoAwayFrame),
    Padding(padding::PaddingFrame),
    Ping(ping::PingFrame),
    RstStream(rst_stream::RstStreamFrame),
    StopWaiting(stop_waiting::StopWaitingFrame),
    Stream(stream::StreamFrame),
    WindowUpdate(window_update::WindowUpdateFrame),
}

/// Mathematical image of a frame.
pub enum FrameView {
    Ack(ack::AckFrameView),
    Blocked(blocked::BlockedFrame),
    ConnectionClose(connection_close::ConnectionCloseFrameView),
    GoAway(goaway::GoAwayFrameView),
    Padding(padding::PaddingFrame),
    Ping(ping::PingFrame),
    RstStream(rst_stream::RstStreamFrame),
    StopWaiting(stop_waiting::StopWaitingFrame),
    Stream(stream::StreamFrameView),
    WindowUpdate(window_update::WindowUpdateFrame),
}

impl View for Frame {
    type V = FrameView;

    open spec fn view(&self) -> FrameView {
        match self {
            Frame::Ack(f) => FrameView::Ack(f@),
            Frame::Blocked(f) => FrameView::Blocked(*f),
            Frame::ConnectionClose(f) => FrameView::ConnectionClose(f@),
            Frame::GoAway(f) => FrameView::GoAway(f@),
            Frame::Padding(f) => FrameView::Padding(*f),
            Frame::Ping(f) => FrameView::Ping(*f),
            Frame::RstStream(f) => FrameView::RstStream(*f),
            Frame::StopWaiting(f) => FrameView::StopWaiting(*f),
            Frame::Stream(f) => FrameView::Stream(f@),
            Frame::WindowUpdate(f) => FrameView::WindowUpdate(*f),
        }
    }
}

/// The per-variant conditions under which a frame can be put on the wire.
pub open spec fn frame_valid(v: FrameView, pns: int, last_frame: bool) -> bool {
    match v {
        FrameView::Ack(f) => ack::ack_valid(f),
        FrameView::ConnectionClose(f) => connection_close::connection_close_valid(f),
        FrameView::GoAway(f) => goaway::goaway_valid(f),
        FrameView::StopWaiting(f) => stop_waiting::stop_waiting_valid(f, pns),
        FrameView::Stream(f) => stream::stream_valid(f, last_frame),
        _ => true,
    }
}

/// Wire image of a frame.
pub open spec fn frame_bytes(v: FrameView, pns: int, last_frame: bool) -> Seq<u8> {
    match v {
        FrameView::Ack(f) => ack::ack_bytes(f),
        FrameView::Blocked(f) => blocked::blocked_bytes(f),
        FrameView::ConnectionClose(f) => connection_close::connection_close_bytes(f),
        FrameView::GoAway(f) => goaway::goaway_bytes(f),
        FrameView::Padding(f) => padding::padding_bytes(f),
        FrameView::Ping(f) => ping::ping_bytes(f),
        FrameView::RstStream(f) => rst_stream::rst_stream_bytes(f),
        FrameView::StopWaiting(f) => stop_waiting::stop_waiting_bytes(f, pns),
        FrameView::Stream(f) => stream::stream_bytes(f, last_frame),
        FrameView::WindowUpdate(f) => window_update::window_update_bytes(f),
    }
}

pub open spec fn parse_frame(s: Seq<u8>, pos: int, pns: int) -> Result<(FrameView, int), Error> {
    if pos >= s.len() || pos < 0 {
        Err(Error::UnexpectedEof)
    } else {
        let t = s[pos];
        if t == blocked::FRAME_BLOCKED {
            match blocked::parse_blocked(s, pos) {
                Ok((f, p)) => Ok((FrameView::Blocked(f), p)),
                Err(e) => Err(e),
            }
        } else if t == connection_close::FRAME_CONNECTION_CLOSE {
            match connection_close::parse_connection_close(s, pos) {
                Ok((f, p)) => Ok((FrameView::ConnectionClose(f), p)),
                Err(e) => Err(e),
            }
        } else if t == goaway::FRAME_GOAWAY {
            match goaway::parse_goaway(s, pos) {
                Ok((f, p)) => Ok((FrameView::GoAway(f), p)),
                Err(e) => Err(e),
            }
        } else if t == padding::FRAME_PADDING {
            match padding::parse_padding(s, pos) {
                Ok((f, p)) => Ok((FrameView::Padding(f), p)),
                Err(e) => Err(e),
            }
        } else if t == ping::FRAME_PING {
            match ping::parse_ping(s, pos) {
                Ok((f, p)) => Ok((FrameView::Ping(f), p)),
                Err(e) => Err(e),
            }
        } else if t == rst_stream::FRAME_RST_STREAM {
            match rst_stream::parse_rst_stream(s, pos) {
                Ok((f, p)) => Ok((FrameView::RstStream(f), p)),
                Err(e) => Err(e),
            }
        } else if t == stop_waiting::FRAME_STOP_WAITING {
            match stop_waiting::parse_stop_waiting(s, pos, pns) {
                Ok((f, p)) => Ok((FrameView::StopWaiting(f), p)),
                Err(e) => Err(e),
            }
        } else if t == window_update::FRAME_WINDOW_UPDATE {
            match window_update::parse_window_update(s, pos) {
                Ok((f, p)) => Ok((FrameView::WindowUpdate(f), p)),
                Err(e) => Err(e),
            }
        } else if (t as int) / 64 == 1 {
            match ack::parse_ack(s, pos) {
                Ok((f, p)) => Ok((FrameView::Ack(f), p)),
                Err(e) => Err(e),
            }
        } else if t >= 0x80 {
            match stream::parse_stream(s, pos) {
                Ok((f, p)) => Ok((FrameView::Stream(f), p)),
                Err(e) => Err(e),
            }
        } else {
            Err(Error::Decoding)
        }
    }
}

impl Frame {
    /// Write this frame at the end of `out`; `last_frame` selects the
    /// stream-frame form that omits its data-length field.
    pub fn encode(&self, out: &mut Vec<u8>, packet_number_size: usize, last_frame: bool)
        requires
            valid_pns(packet_number_size as int),
            frame_valid(self@, packet_number_size as int, last_frame),
        ensures
            final(out)@ == old(out)@ + frame_bytes(self@, packet_number_size as int, last_frame),
    {
        crate::wire::check_packet_number_size(packet_number_size);
        match self {
            Frame::Ack(f) => f.encode(out),
            Frame::Blocked(f) => f.encode(out),
            Frame::ConnectionClose(f) => f.encode(out),
            Frame::GoAway(f) => f.encode(out),
            Frame::Padding(f) => f.encode(out),
            Frame::Ping(f) => f.encode(out),
            Frame::RstStream(f) => f.encode(out),
            Frame::StopWaiting(f) => f.encode(out, packet_number_size),
            Frame::Stream(f) => f.encode(out, last_frame),
            Frame::WindowUpdate(f) => f.encode(out),
        }
    }

    /// Decode one frame at `pos`; running out of input exactly at the
    /// type byte is the benign `UnexpectedEof`.
    pub fn decode(bytes: &Vec<u8>, pos: usize, packet_number_size: usize) -> (r: Result<
        (Frame, usize),
        Error,
    >)
        requires
            valid_pns(packet_number_size as int),
        ensures
            decode_result_matches(r, parse_frame(bytes@, pos as int, packet_number_size as int)),
    {
        crate::wire::check_packet_number_size(packet_number_size);
        if pos >= bytes.len() {
            return Err(Error::UnexpectedEof);
        }
        let t = bytes[pos];
        if t == blocked::FRAME_BLOCKED {
            match blocked::BlockedFrame::decode(bytes, pos) {
                Ok((f, p)) => Ok((Frame::Blocked(f), p)),
                Err(e) => Err(e),
            }
        } else if t == connection_close::FRAME_CONNECTION_CLOSE {
            match connection_close::ConnectionCloseFrame::decode(bytes, pos) {
                Ok((f, p)) => Ok((Frame::ConnectionClose(f), p)),
                Err(e) => Err(e),
            }
        } else if t == goaway::FRAME_GOAWAY {
            match goaway::GoAwayFrame::decode(bytes, pos) {
                Ok((f, p)) => Ok((Frame::GoAway(f), p)),
                Err(e) => Err(e),
            }
        } else if t == padding::FRAME_PADDING {
            match padding::PaddingFrame::decode(bytes, pos) {
                Ok((f, p)) => Ok((Frame::Padding(f), p)),
                Err(e) => Err(e),
            }
        } else if t == ping::FRAME_PING {
            match ping::PingFrame::decode(bytes, pos) {
                Ok((f, p)) => Ok((Frame::Ping(f), p)),
                Err(e) => Err(e),
            }
        } else if t == rst_stream::FRAME_RST_STREAM {
            match rst_stream::RstStreamFrame::decode(bytes, pos) {
                Ok((f, p)) => Ok((Frame::RstStream(f), p)),
                Err(e) => Err(e),
            }
        } else if t == stop_waiting::FRAME_STOP_WAITING {
            match stop_waiting::StopWaitingFrame::decode(bytes, pos, packet_number_size) {
                Ok((f, p)) => Ok((Frame::StopWaiting(f), p)),
                Err(e) => Err(e),
            }
        } else if t == window_update::FRAME_WINDOW_UPDATE {
            match window_update::WindowUpdateFrame::decode(bytes, pos) {
                Ok((f, p)) => Ok((Frame::WindowUpdate(f), p)),
                Err(e) => Err(e),
            }
        } else if t / 64 == 1 {
            match ack::AckFrame::decode(bytes, pos) {
                Ok((f, p)) => Ok((Frame::Ack(f), p)),
                Err(e) => Err(e),
            }
        } else if t >= 0x80 {
            match stream::StreamFrame::decode(bytes, pos) {
                Ok((f, p)) => Ok((Frame::Stream(f), p)),
                Err(e) => Err(e),
            }
        } else {
            Err(Error::Decoding)
        }
    }
}

/// Values that the six-byte truncation of an ack frame's largest
/// acknowledged value leaves unchanged; every other frame's fields are
/// carried at full width.
pub open spec fn frame_fits(v: FrameView) -> bool {
    match v {
        FrameView::Ack(f) => (f.largest_acknowledged as nat) < crate::wire::pow256(6),
        _ => true,
    }
}

/// Round trip: any valid frame decodes back from its own encoding,
/// wherever it sits, and the decoder consumes exactly its bytes.
pub proof fn lemma_frame_round_trip(s: Seq<u8>, pos: int, v: FrameView, pns: int, last_frame: bool)
    requires
        valid_pns(pns),
        frame_valid(v, pns, last_frame),
        frame_fits(v),
        v matches FrameView::ConnectionClose(f) ==> (f.reason_phrase matches Some(b) ==> b.len()
            >= 1),
        v matches FrameView::GoAway(f) ==> (f.reason_phrase matches Some(b) ==> b.len() >= 1),
        0 <= pos,
        pos + frame_bytes(v, pns, last_frame).len() <= s.len(),
        s.subrange(pos, pos + frame_bytes(v, pns, last_frame).len()) == frame_bytes(
            v,
            pns,
            last_frame,
        ),
        last_frame ==> pos + frame_bytes(v, pns, last_frame).len() == s.len(),
    ensures
        parse_frame(s, pos, pns) == Ok::<_, Error>(
            (v, pos + frame_bytes(v, pns, last_frame).len()),
        ),
{
    let t = frame_bytes(v, pns, last_frame);
    let tl = t.len() as int;
    match v {
        FrameView::Ack(f) => {
            ack::lemma_ack_bytes_first(f);
            assert(s[pos] == s.subrange(pos, pos + tl)[0]);
            ack::lemma_ack_round_trip(s, pos, f);
        },
        FrameView::Blocked(f) => {
            crate::wire::lemma_be_bytes_len(f.stream_id as nat, 4);
            assert(s[pos] == s.subrange(pos, pos + tl)[0]);
            blocked::lemma_blocked_round_trip(s, pos, f);
        },
        FrameView::ConnectionClose(f) => {
            crate::wire::lemma_be_bytes_len(f.error_code as nat, 4);
            match f.reason_phrase {
                Some(b) => {
                    crate::wire::lemma_be_bytes_len(b.len(), 2);
                },
                None => {
                    crate::wire::lemma_be_bytes_len(0, 2);
                },
            }
            assert(s[pos] == s.subrange(pos, pos + tl)[0]);
            connection_close::lemma_connection_close_round_trip(s, pos, f);
        },
        FrameView::GoAway(f) => {
            crate::wire::lemma_be_bytes_len(f.error_code as nat, 4);
            crate::wire::lemma_be_bytes_len(f.last_good_stream_id as nat, 4);
            match f.reason_phrase {
                Some(b) => {
                    crate::wire::lemma_be_bytes_len(b.len(), 2);
                },
                None => {
                    crate::wire::lemma_be_bytes_len(0, 2);
                },
            }
            assert(s[pos] == s.subrange(pos, pos + tl)[0]);
            goaway::lemma_goaway_round_trip(s, pos, f);
        },
        FrameView::Padding(f) => {
            assert(s[pos] == s.subrange(pos, pos + tl)[0]);
            padding::lemma_padding_round_trip(s, pos, f);
        },
        FrameView::Ping(f) => {
            assert(s[pos] == s.subrange(pos, pos + tl)[0]);
            ping::lemma_ping_round_trip(s, pos, f);
        },
        FrameView::RstStream(f) => {
            crate::wire::lemma_be_bytes_len(f.error_code as nat, 4);
            crate::wire::lemma_be_bytes_len(f.stream_id as nat, 4);
            crate::wire::lemma_be_bytes_len(f.final_offset as nat, 8);
            assert(s[pos] == s.subrange(pos, pos + tl)[0]);
            rst_stream::lemma_rst_stream_round_trip(s, pos, f);
        },
        FrameView::StopWaiting(f) => {
            crate::wire::lemma_be_bytes_len(f.least_acked_delta as nat, pns as nat);
            assert(s[pos] == s.subrange(pos, pos + tl)[0]);
            stop_waiting::lemma_stop_waiting_round_trip(s, pos, f, pns);
        },
        FrameView::Stream(f) => {
            crate::wire::lemma_be_bytes_len(f.stream_data.len(), 2);
            crate::wire::lemma_be_bytes_len(f.stream_id as nat, 4);
            crate::wire::lemma_be_bytes_len(f.offset as nat, 8);
            assert(s[pos] == s.subrange(pos, pos + tl)[0]);
            stream::lemma_stream_round_trip(s, pos, f, last_frame);
        },
        FrameView::WindowUpdate(f) => {
            crate::wire::lemma_be_bytes_len(f.stream_id as nat, 4);
            crate::wire::lemma_be_bytes_len(f.byte_offset as nat, 8);
            assert(s[pos] == s.subrange(pos, pos + tl)[0]);
            window_update::lemma_window_update_round_trip(s, pos, f);
        },
    }
}

/// A successful frame parse consumes at least one byte and stays inside
/// the buffer.
pub proof fn lemma_parse_frame_progress(s: Seq<u8>, pos: int, pns: int)
    requires
        valid_pns(pns),
    ensures
        parse_frame(s, pos, pns) matches Ok((f, p)) ==> pos < p <= s.len(),
{
    if 0 <= pos < s.len() {
        let t = s[pos];
        if t == blocked::FRAME_BLOCKED {
        } else if (t as int) / 64 == 1 {
            if parse_frame(s, pos, pns) is Ok {
                lemma_parse_ack_bounds(s, pos);
            }
        } else {
        }
    }
}

/// A successful ack parse stays inside the buffer.
proof fn lemma_parse_ack_bounds(s: Seq<u8>, pos: int)
    requires
        0 <= pos < s.len(),
    ensures
        ack::parse_ack(s, pos) matches Ok((f, p)) ==> pos < p <= s.len(),
{
    if ack::parse_ack(s, pos) is Ok {
        let t = s[pos] as int;
        let has_extra = (t / 32) % 2 == 1;
        let la_size = ack::ack_size_of((t / 4) % 4);
        let ab_size = ack::ack_size_of(t % 4);
        let p0 = pos + 1;
        let ebc: int = if has_extra {
            s[p0] as int
        } else {
            0
        };
        let p1: int = if has_extra {
            p0 + 1
        } else {
            p0
        };
        let p2 = p1 + 1;
        let p5 = p2 + la_size + 2 + ab_size;
        lemma_parse_ack_blocks_bounds(s, p5, ebc, ab_size);
        let tsc = s[p1] as int;
        if tsc > 0 {
            match ack::parse_ack_blocks(s, p5, ebc, ab_size) {
                Ok((blocks, p6)) => {
                    lemma_parse_extra_ts_bounds(s, p6 + 5, tsc - 1);
                },
                Err(e) => {},
            }
        }
    }
}

/// A successful block-section parse stays inside the buffer.
proof fn lemma_parse_ack_blocks_bounds(s: Seq<u8>, pos: int, count: int, bsize: int)
    requires
        bsize >= 1,
    ensures
        0 <= pos <= s.len() ==> (ack::parse_ack_blocks(s, pos, count, bsize) matches Ok((bs, p))
            ==> pos <= p <= s.len()),
    decreases
            (if count > 0 {
                count
            } else {
                0
            }),
{
    if count > 0 {
        if !(pos + 1 + bsize > s.len() || pos < 0) {
            lemma_parse_ack_blocks_bounds(s, pos + 1 + bsize, count - 1, bsize);
        }
    }
}

/// A successful timestamp-section parse stays inside the buffer.
proof fn lemma_parse_extra_ts_bounds(s: Seq<u8>, pos: int, count: int)
    ensures
        0 <= pos <= s.len() ==> (ack::parse_extra_ts(s, pos, count) matches Ok((ts, p)) ==> pos
            <= p <= s.len()),
    decreases
            (if count > 0 {
                count
            } else {
                0
            }),
{
    if count > 0 {
        if !(pos + 3 > s.len() || pos < 0) {
            lemma_parse_extra_ts_bounds(s, pos + 3, count - 1);
        }
    }
}

} // verus!
