use vstd::prelude::*;

use crate::errors::Error;
use crate::wire::{
    be_bytes, be_val, decode_result_matches, lemma_be_bytes_len, lemma_be_val_be_bytes, pow256,
    push_be, read_be, valid_pns,
};

verus! {

pub const FRAME_STOP_WAITING: u8 = 0x06;

#[derive(Clone, Copy, Debug, Default, PartialEq, Eq, Structural)]
pub struct StopWaitingFrame {
    pub least_acked_delta: u64,
}

impl View for StopWaitingFrame {
    type V = StopWaitingFrame;

    open spec fn view(&self) -> StopWaitingFrame {
        *self
    }
}

/// The delta must fit the enclosing packet's packet-number size.
pub open spec fn stop_waiting_valid(f: StopWaitingFrame, pns: int) -> bool {
    (f.least_acked_delta as nat) < pow256(pns as nat)
}

/// Wire image: the type byte, then the delta at the packet-number width.
pub open spec fn stop_waiting_bytes(f: StopWaitingFrame, pns: int) -> Seq<u8> {
    seq![FRAME_STOP_WAITING] + be_bytes(f.least_acked_delta as nat, pns as nat)
}

pub open spec fn parse_stop_waiting(s: Seq<u8>, pos: int, pns: int) -> Result<
    (StopWaitingFrame, int),
    Error,
> {
    if pos >= s.len() {
        Err(Error::UnexpectedEof)
    } else if pos + 1 + pns > s.len() {
        Err(Error::Decoding)
    } else {
        Ok(
            (
                StopWaitingFrame {
                    least_acked_delta: be_val(s.subrange(pos + 1, pos + 1 + pns)) as u64,
                },
                pos + 1 + pns,
            ),
        )
    }
}

impl StopWaitingFrame {
    pub fn encode(&self, out: &mut Vec<u8>, packet_number_size: usize)
        requires
            valid_pns(packet_number_size as int),
            stop_waiting_valid(*self, packet_number_size as int),
        ensures
            final(out)@ == old(out)@ + stop_waiting_bytes(self@, packet_number_size as int),
    {
        out.push(FRAME_STOP_WAITING);
        push_be(out, self.least_acked_delta, packet_number_size);
        proof {
            assert(out@ =~= old(out)@ + stop_waiting_bytes(self@, packet_number_size as int));
        }
    }

    pub fn decode(bytes: &Vec<u8>, pos: usize, packet_number_size: usize) -> (r: Result<
        (StopWaitingFrame, usize),
        Error,
    >)
        requires
            valid_pns(packet_number_size as int),
            pos < bytes@.len() ==> bytes@[pos as int] == FRAME_STOP_WAITING,
        ensures
            decode_result_matches(
                r,
                parse_stop_waiting(bytes@, pos as int, packet_number_size as int),
            ),
    {
        if pos >= bytes.len() {
            return Err(Error::UnexpectedEof);
        }
        match read_be(bytes, pos + 1, packet_number_size) {
            Ok((least_acked_delta, end)) => Ok((StopWaitingFrame { least_acked_delta }, end)),
            Err(e) => Err(e),
        }
    }
}

/// A stop-waiting frame whose delta fits the packet-number width decodes
/// back from its own encoding wherever it sits.
pub proof fn lemma_stop_waiting_round_trip(s: Seq<u8>, pos: int, f: StopWaitingFrame, pns: int)
    requires
        valid_pns(pns),
        stop_waiting_valid(f, pns),
        0 <= pos,
        pos + 1 + pns <= s.len(),
        s.subrange(pos, pos + 1 + pns) == stop_waiting_bytes(f, pns),
    ensures
        parse_stop_waiting(s, pos, pns) == Ok::<_, Error>((f, pos + 1 + pns)),
{
    let t = stop_waiting_bytes(f, pns);
    lemma_be_bytes_len(f.least_acked_delta as nat, pns as nat);
    crate::wire::lemma_subrange_nested(s, pos, 1 + pns, 1, 1 + pns);
    assert(t.subrange(1, 1 + pns) =~= be_bytes(f.least_acked_delta as nat, pns as nat));
    lemma_be_val_be_bytes(f.least_acked_delta as nat, pns as nat);
    vstd::arithmetic::div_mod::lemma_small_mod(f.least_acked_delta as nat, pow256(pns as nat));
}

} // verus!
