//! Per-stream state: a receive window, an outgoing byte queue, and the
//! five-state lifecycle driven by writes, incoming data and the two
//! finalize directions.

use vstd::prelude::*;

use crate::engine::stream_buffer::{
    add_conflicts, add_within_window, readable_run, window_after_add, StreamBuffer,
};
use crate::errors::Error;

verus! {

/// Default incoming flow-control window per stream.
pub const INCOMING_BUFFER_SIZE: usize = 100 * 1024;

#[derive(Clone, Copy, Debug, PartialEq, Eq, Structural)]
pub enum StreamState {
    Idle,
    Open,
    RemoteClosed,
    LocalClosed,
    Closed,
}

/// Closing the local half: an open or idle stream becomes locally
/// closed; a remotely closed one becomes fully closed; closed states
/// stay put.
pub open spec fn finalize_outgoing_transition(s: StreamState) -> StreamState {
    match s {
        StreamState::Idle => StreamState::LocalClosed,
        StreamState::Open => StreamState::LocalClosed,
        StreamState::RemoteClosed => StreamState::Closed,
        StreamState::LocalClosed => StreamState::LocalClosed,
        StreamState::Closed => StreamState::Closed,
    }
}

/// The peer closing its half: an open or idle stream becomes remotely
/// closed; a locally closed one becomes fully closed; closed states
/// stay put.
pub open spec fn finalize_incoming_transition(s: StreamState) -> StreamState {
    match s {
        StreamState::Idle => StreamState::RemoteClosed,
        StreamState::Open => StreamState::RemoteClosed,
        StreamState::RemoteClosed => StreamState::RemoteClosed,
        StreamState::LocalClosed => StreamState::Closed,
        StreamState::Closed => StreamState::Closed,
    }
}

/// Incoming data opens an idle stream and otherwise leaves the state.
pub open spec fn receive_transition(s: StreamState) -> StreamState {
    match s {
        StreamState::Idle => StreamState::Open,
        StreamState::Open => StreamState::Open,
        StreamState::RemoteClosed => StreamState::RemoteClosed,
        StreamState::LocalClosed => StreamState::LocalClosed,
        StreamState::Closed => StreamState::Closed,
    }
}

/// The full transition tables of the stream lifecycle, stated over all
/// five states, and the idempotence of repeated finalize calls in either
/// direction.
pub proof fn lemma_stream_state_machine()
    ensures
        finalize_outgoing_transition(StreamState::Idle) == StreamState::LocalClosed,
        finalize_outgoing_transition(StreamState::Open) == StreamState::LocalClosed,
        finalize_outgoing_transition(StreamState::RemoteClosed) == StreamState::Closed,
        finalize_outgoing_transition(StreamState::LocalClosed) == StreamState::LocalClosed,
        finalize_outgoing_transition(StreamState::Closed) == StreamState::Closed,
        finalize_incoming_transition(StreamState::Idle) == StreamState::RemoteClosed,
        finalize_incoming_transition(StreamState::Open) == StreamState::RemoteClosed,
        finalize_incoming_transition(StreamState::RemoteClosed) == StreamState::RemoteClosed,
        finalize_incoming_transition(StreamState::LocalClosed) == StreamState::Closed,
        finalize_incoming_transition(StreamState::Closed) == StreamState::Closed,
        forall|s: StreamState|
            finalize_outgoing_transition(#[trigger] finalize_outgoing_transition(s))
                == finalize_outgoing_transition(s),
        forall|s: StreamState|
            finalize_incoming_transition(#[trigger] finalize_incoming_transition(s))
                == finalize_incoming_transition(s),
        forall|s: StreamState|
            finalize_incoming_transition(#[trigger] finalize_outgoing_transition(s))
                == finalize_outgoing_transition(finalize_incoming_transition(s)),
{
}

/// The state a newly instantiated stream starts in.
pub open spec fn is_fresh_stream(s: Stream, id: u32) -> bool {
    &&& s.id == id
    &&& s.state == StreamState::Idle
    &&& !s.fin_sent
    &&& s.buf().cap() == INCOMING_BUFFER_SIZE
    &&& s.buf().next() == 0
    &&& s.buf().window() == Seq::<Option<u8>>::empty()
    &&& s.prev_max() == 0
    &&& s.fin_off() == 0
    &&& s.outgoing() == Seq::<u8>::empty()
    &&& s.max_outgoing_data == INCOMING_BUFFER_SIZE as u64
    &&& s.next_out() == 0
}

#[derive(Clone, Debug, PartialEq)]
pub struct Stream {
    pub id: u32,
    pub state: StreamState,
    pub fin_sent: bool,
    pub incoming_buffer: StreamBuffer,
    pub prev_maximum_data: u64,
    pub fin_offset: u64,
    pub outgoing_buffer: Vec<u8>,
    pub max_outgoing_data: u64,
    pub next_outgoing_offset: u64,
}

impl Stream {
    /// The incoming reassembly window.
    pub open spec fn buf(&self) -> StreamBuffer {
        self.incoming_buffer
    }

    /// The last flow-control ceiling reported to the peer.
    pub open spec fn prev_max(&self) -> int {
        self.prev_maximum_data as int
    }

    /// The offset at which the peer ended the stream, once learned.
    pub open spec fn fin_off(&self) -> int {
        self.fin_offset as int
    }

    /// Application bytes queued but not yet handed out for sending.
    pub open spec fn outgoing(&self) -> Seq<u8> {
        self.outgoing_buffer@
    }

    /// Offset of the first queued byte: everything below it has been
    /// handed to the connection.
    pub open spec fn next_out(&self) -> int {
        self.next_outgoing_offset as int
    }

    pub open spec fn wf(&self) -> bool {
        &&& self.buf().wf()
        &&& self.next_out() + self.outgoing().len() <= u64::MAX
    }

    pub fn new(id: u32) -> (r: Stream)
        ensures
            r.wf(),
            is_fresh_stream(r, id),
    {
        Stream {
            id,
            state: StreamState::Idle,
            fin_sent: false,
            incoming_buffer: StreamBuffer::new(INCOMING_BUFFER_SIZE),
            prev_maximum_data: 0,
            fin_offset: 0,
            outgoing_buffer: Vec::new(),
            max_outgoing_data: INCOMING_BUFFER_SIZE as u64,
            next_outgoing_offset: 0,
        }
    }

    /// A read would make progress now: bytes are waiting, or the peer's
    /// end of stream has been reached exactly (a zero read means
    /// end-of-stream).
    pub fn data_available(&self) -> (r: bool)
        ensures
            r == (readable_run(self.buf().window()) > 0 || ((self.state == StreamState::RemoteClosed
                || self.state == StreamState::Closed) && self.buf().next() == self.fin_off())),
    {
        self.incoming_buffer.is_readable() || ((matches!(self.state, StreamState::RemoteClosed)
            || matches!(self.state, StreamState::Closed)) && self.incoming_buffer.next_index
            == self.fin_offset)
    }

    /// Pull readable bytes into `buf`; zero is normal when nothing
    /// contiguous has arrived.
    pub fn read(&mut self, buf: &mut Vec<u8>) -> (r: Result<usize, Error>)
        requires
            old(self).wf(),
        ensures
            final(self).wf(),
            ({
                let n = vstd::math::min(
                    old(buf)@.len() as int,
                    readable_run(old(self).buf().window()),
                );
                &&& r == Ok::<usize, Error>(n as usize)
                &&& final(buf)@.len() == old(buf)@.len()
                &&& forall|i: int|
                    0 <= i < n ==> (#[trigger] final(buf)@[i]) == old(self).buf().window()[i].unwrap()
                &&& forall|i: int|
                    n <= i < old(buf)@.len() ==> (#[trigger] final(buf)@[i]) == old(buf)@[i]
                &&& final(self).buf().next() == old(self).buf().next() + n
                &&& final(self).buf().window() == old(self).buf().window().skip(n as int)
                &&& final(self).buf().cap() == old(self).buf().cap()
            }),
            final(self).id == old(self).id,
            final(self).state == old(self).state,
            final(self).fin_sent == old(self).fin_sent,
            final(self).prev_max() == old(self).prev_max(),
            final(self).fin_off() == old(self).fin_off(),
            final(self).outgoing() == old(self).outgoing(),
            final(self).max_outgoing_data == old(self).max_outgoing_data,
            final(self).next_out() == old(self).next_out(),
    {
        let read_size = self.incoming_buffer.pull_data(buf);
        Ok(read_size)
    }

    /// Close the local half, as the transition table says; idempotent.
    pub fn finalize_outgoing(&mut self)
        ensures
            final(self).state == finalize_outgoing_transition(old(self).state),
            final(self).id == old(self).id,
            final(self).fin_sent == old(self).fin_sent,
            final(self).buf() == old(self).buf(),
            final(self).prev_max() == old(self).prev_max(),
            final(self).fin_off() == old(self).fin_off(),
            final(self).outgoing() == old(self).outgoing(),
            final(self).max_outgoing_data == old(self).max_outgoing_data,
            final(self).next_out() == old(self).next_out(),
    {
        self.state = match self.state {
            StreamState::Idle => StreamState::LocalClosed,
            StreamState::Open => StreamState::LocalClosed,
            StreamState::RemoteClosed => StreamState::Closed,
            StreamState::LocalClosed => StreamState::LocalClosed,
            StreamState::Closed => StreamState::Closed,
        };
    }

    /// The offset at which this side's terminal fin frame must be sent:
    /// one past the last byte ever queued.
    pub fn outgoing_fin_offset(&self) -> (r: u64)
        requires
            self.wf(),
        ensures
            r == self.next_out() + self.outgoing().len(),
    {
        self.next_outgoing_offset + (self.outgoing_buffer.len() as u64)
    }

    /// Record the peer's end-of-stream offset and transition state, as
    /// the table says; idempotent.
    pub fn finalize_incoming(&mut self, offset: u64)
        ensures
            final(self).state == finalize_incoming_transition(old(self).state),
            final(self).fin_off() == offset,
            final(self).id == old(self).id,
            final(self).fin_sent == old(self).fin_sent,
            final(self).buf() == old(self).buf(),
            final(self).prev_max() == old(self).prev_max(),
            final(self).outgoing() == old(self).outgoing(),
            final(self).max_outgoing_data == old(self).max_outgoing_data,
            final(self).next_out() == old(self).next_out(),
    {
        self.fin_offset = offset;
        self.state = match self.state {
            StreamState::Idle => StreamState::RemoteClosed,
            StreamState::Open => StreamState::RemoteClosed,
            StreamState::RemoteClosed => StreamState::RemoteClosed,
            StreamState::LocalClosed => StreamState::Closed,
            StreamState::Closed => StreamState::Closed,
        };
    }

    /// Queue application bytes for sending and mark the stream open —
    /// from any state, so a write to a finalized stream reopens it.
    pub fn extend_outgoing_buf(&mut self, buf: &Vec<u8>)
        requires
            old(self).wf(),
            old(self).next_out() + old(self).outgoing().len() + buf@.len() <= u64::MAX,
        ensures
            final(self).wf(),
            final(self).outgoing() == old(self).outgoing() + buf@,
            final(self).state == StreamState::Open,
            final(self).id == old(self).id,
            final(self).fin_sent == old(self).fin_sent,
            final(self).buf() == old(self).buf(),
            final(self).prev_max() == old(self).prev_max(),
            final(self).fin_off() == old(self).fin_off(),
            final(self).max_outgoing_data == old(self).max_outgoing_data,
            final(self).next_out() == old(self).next_out(),
    {
        crate::wire::push_bytes(&mut self.outgoing_buffer, buf);
        self.state = StreamState::Open;
    }

    /// Hand incoming stream bytes to the reassembly window. Empty data is
    /// a no-op; otherwise the stream opens if idle, and the window takes
    /// the bytes or reports why not.
    pub fn extend_incoming_buf(&mut self, offset: u64, buf: &Vec<u8>) -> (r: Result<(), Error>)
        requires
            old(self).wf(),
        ensures
            final(self).wf(),
            final(self).id == old(self).id,
            final(self).fin_sent == old(self).fin_sent,
            final(self).prev_max() == old(self).prev_max(),
            final(self).fin_off() == old(self).fin_off(),
            final(self).outgoing() == old(self).outgoing(),
            final(self).max_outgoing_data == old(self).max_outgoing_data,
            final(self).next_out() == old(self).next_out(),
            final(self).buf().cap() == old(self).buf().cap(),
            ({
                let o = offset as int;
                let dl = buf@.len() as int;
                let next = old(self).buf().next();
                let cap = old(self).buf().cap();
                let w = old(self).buf().window();
                if dl == 0 {
                    &&& r == Ok::<(), Error>(())
                    &&& final(self).state == old(self).state
                    &&& final(self).buf() == old(self).buf()
                } else {
                    &&& final(self).state == receive_transition(old(self).state)
                    &&& final(self).buf().next() == next
                    &&& if !add_within_window(next, cap, o, dl) {
                        &&& r == Err::<(), Error>(Error::BufferOverflow)
                        &&& final(self).buf().window() == w
                    } else if o < next {
                        &&& r == Err::<(), Error>(Error::InvalidData)
                        &&& final(self).buf().window() == w
                    } else if add_conflicts(w, o - next, buf@) {
                        &&& r == Err::<(), Error>(Error::InvalidData)
                        &&& final(self).buf().window() == w
                    } else {
                        &&& r == Ok::<(), Error>(())
                        &&& final(self).buf().window() == window_after_add(w, o - next, buf@)
                    }
                }
            }),
    {
        if buf.len() == 0 {
            return Ok(());
        }
        self.state = match self.state {
            StreamState::Idle => StreamState::Open,
            StreamState::Open => StreamState::Open,
            StreamState::RemoteClosed => StreamState::RemoteClosed,
            StreamState::LocalClosed => StreamState::LocalClosed,
            StreamState::Closed => StreamState::Closed,
        };
        self.incoming_buffer.add_data(offset, buf)
    }

    /// The flow-control ceiling to advertise, if it moved since last
    /// reported; `None` avoids a redundant window update.
    pub fn new_maximum_data(&mut self) -> (r: Option<u64>)
        requires
            old(self).wf(),
        ensures
            final(self).wf(),
            ({
                let md = old(self).buf().next() + old(self).buf().cap();
                if md != old(self).prev_max() {
                    r == Some(md as u64) && final(self).prev_max() == md
                } else {
                    r == None::<u64> && final(self).prev_max() == old(self).prev_max()
                }
            }),
            final(self).id == old(self).id,
            final(self).state == old(self).state,
            final(self).fin_sent == old(self).fin_sent,
            final(self).buf() == old(self).buf(),
            final(self).fin_off() == old(self).fin_off(),
            final(self).outgoing() == old(self).outgoing(),
            final(self).max_outgoing_data == old(self).max_outgoing_data,
            final(self).next_out() == old(self).next_out(),
    {
        let maximum_data = self.incoming_buffer.maximum_accepted_offset() + 1;
        if maximum_data != self.prev_maximum_data {
            self.prev_maximum_data = maximum_data;
            Some(maximum_data)
        } else {
            None
        }
    }

    /// Take queued bytes out for packetization, no further than the
    /// peer-advertised flow-control ceiling, and advance the outgoing
    /// offset; returns the starting offset and the bytes.
    pub fn drain_outgoing_buffer(&mut self) -> (r: (u64, Vec<u8>))
        requires
            old(self).wf(),
        ensures
            final(self).wf(),
            ({
                let can = if old(self).max_outgoing_data as int > old(self).next_out() {
                    old(self).max_outgoing_data as int - old(self).next_out()
                } else {
                    0
                };
                let will = vstd::math::min(can, old(self).outgoing().len() as int);
                &&& r.0 == old(self).next_out()
                &&& r.1@ == old(self).outgoing().take(will)
                &&& final(self).next_out() == old(self).next_out() + will
                &&& final(self).outgoing() == old(self).outgoing().skip(will)
            }),
            final(self).id == old(self).id,
            final(self).state == old(self).state,
            final(self).fin_sent == old(self).fin_sent,
            final(self).buf() == old(self).buf(),
            final(self).prev_max() == old(self).prev_max(),
            final(self).fin_off() == old(self).fin_off(),
            final(self).max_outgoing_data == old(self).max_outgoing_data,
    {
        let can_send: u64 = if self.max_outgoing_data > self.next_outgoing_offset {
            self.max_outgoing_data - self.next_outgoing_offset
        } else {
            0
        };
        let qlen = self.outgoing_buffer.len();
        let will_send: usize = if can_send < qlen as u64 {
            can_send as usize
        } else {
            qlen
        };
        let next_outgoing_offset = self.next_outgoing_offset;
        self.next_outgoing_offset = self.next_outgoing_offset + (will_send as u64);
        let mut sent: Vec<u8> = Vec::new();
        let mut i: usize = 0;
        while i < will_send
            invariant
                i <= will_send,
                will_send <= self.outgoing_buffer@.len(),
                sent@ == self.outgoing_buffer@.subrange(0, i as int),
                self.outgoing_buffer@ == old(self).outgoing(),
                self.next_outgoing_offset == old(self).next_out() + will_send,
                self.incoming_buffer == old(self).buf(),
                self.id == old(self).id,
                self.state == old(self).state,
                self.fin_sent == old(self).fin_sent,
                self.prev_maximum_data as int == old(self).prev_max(),
                self.fin_offset as int == old(self).fin_off(),
                self.max_outgoing_data == old(self).max_outgoing_data,
            decreases will_send - i,
        {
            proof {
                assert(self.outgoing_buffer@.subrange(0, i + 1) =~= self.outgoing_buffer@.subrange(
                    0,
                    i as int,
                ).push(self.outgoing_buffer@[i as int]));
            }
            sent.push(self.outgoing_buffer[i]);
            i = i + 1;
        }
        let mut remaining: Vec<u8> = Vec::new();
        let mut j: usize = will_send;
        while j < self.outgoing_buffer.len()
            invariant
                will_send <= j <= self.outgoing_buffer@.len(),
                remaining@ == self.outgoing_buffer@.subrange(will_send as int, j as int),
                self.outgoing_buffer@ == old(self).outgoing(),
                sent@ == old(self).outgoing().subrange(0, will_send as int),
                self.next_outgoing_offset == old(self).next_out() + will_send,
                self.incoming_buffer == old(self).buf(),
                self.id == old(self).id,
                self.state == old(self).state,
                self.fin_sent == old(self).fin_sent,
                self.prev_maximum_data as int == old(self).prev_max(),
                self.fin_offset as int == old(self).fin_off(),
                self.max_outgoing_data == old(self).max_outgoing_data,
            decreases self.outgoing_buffer@.len() - j,
        {
            proof {
                assert(self.outgoing_buffer@.subrange(will_send as int, j + 1) =~= self
                    .outgoing_buffer@.subrange(will_send as int, j as int).push(
                    self.outgoing_buffer@[j as int],
                ));
            }
            remaining.push(self.outgoing_buffer[j]);
            j = j + 1;
        }
        self.outgoing_buffer = remaining;
        proof {
            assert(self.outgoing_buffer@ =~= old(self).outgoing().skip(will_send as int));
            assert(sent@ =~= old(self).outgoing().take(will_send as int));
        }
        (next_outgoing_offset, sent)
    }
}

} // verus!
