use vstd::prelude::*;

use crate::errors::Error;
use crate::wire::decode_result_matches;

verus! {

pub const FRAME_PING: u8 = 0x07;

#[derive(Clone, Copy, Debug, Default, PartialEq, Eq, Structural)]
pub struct PingFrame {}

impl View for PingFrame {
    type V = PingFrame;

    open spec fn view(&self) -> PingFrame {
        *self
    }
}

/// Wire image of a ping frame: the bare type byte.
pub open spec fn ping_bytes(f: PingFrame) -> Seq<u8> {
    seq![FRAME_PING]
}

pub open spec fn parse_ping(s: Seq<u8>, pos: int) -> Result<(PingFrame, int), Error> {
    if pos >= s.len() {
        Err(Error::UnexpectedEof)
    } else {
        Ok((PingFrame {}, pos + 1))
    }
}

impl PingFrame {
    pub fn encode(&self, out: &mut Vec<u8>)
        ensures
            final(out)@ == old(out)@ + ping_bytes(self@),
    {
        out.push(FRAME_PING);
        proof {
            assert(out@ =~= old(out)@ + ping_bytes(self@));
        }
    }

    pub fn decode(bytes: &Vec<u8>, pos: usize) -> (r: Result<(PingFrame, usize), Error>)
        requires
            pos < bytes@.len() ==> bytes@[pos as int] == FRAME_PING,
        ensures
            decode_result_matches(r, parse_ping(bytes@, pos as int)),
    {
        if pos >= bytes.len() {
            return Err(Error::UnexpectedEof);
        }
        Ok((PingFrame {}, pos + 1))
    }
}

/// A ping frame decodes back from its own encoding wherever it sits.
pub proof fn lemma_ping_round_trip(s: Seq<u8>, pos: int, f: PingFrame)
    requires
        0 <= pos,
        pos + 1 <= s.len(),
        s.subrange(pos, pos + 1) == ping_bytes(f),
    ensures
        parse_ping(s, pos) == Ok::<_, Error>((f, pos + 1)),
{
}

} // verus!
