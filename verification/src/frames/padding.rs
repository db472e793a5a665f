use vstd::prelude::*;

use crate::errors::Error;
use crate::wire::decode_result_matches;

verus! {

pub const FRAME_PADDING: u8 = 0x00;

#[derive(Clone, Copy, Debug, Default, PartialEq, Eq, Structural)]
pub struct PaddingFrame {}

impl View for PaddingFrame {
    type V = PaddingFrame;

    open spec fn view(&self) -> PaddingFrame {
        *self
    }
}

/// Wire image of a padding frame: the bare type byte.
pub open spec fn padding_bytes(f: PaddingFrame) -> Seq<u8> {
    seq![FRAME_PADDING]
}

pub open spec fn parse_padding(s: Seq<u8>, pos: int) -> Result<(PaddingFrame, int), Error> {
    if pos >= s.len() {
        Err(Error::UnexpectedEof)
    } else {
        Ok((PaddingFrame {}, pos + 1))
    }
}

impl PaddingFrame {
    pub fn encode(&self, out: &mut Vec<u8>)
        ensures
            final(out)@ == old(out)@ + padding_bytes(self@),
    {
        out.push(FRAME_PADDING);
        proof {
            assert(out@ =~= old(out)@ + padding_bytes(self@));
        }
    }

    pub fn decode(bytes: &Vec<u8>, pos: usize) -> (r: Result<(PaddingFrame, usize), Error>)
        requires
            pos < bytes@.len() ==> bytes@[pos as int] == FRAME_PADDING,
        ensures
            decode_result_matches(r, parse_padding(bytes@, pos as int)),
    {
        if pos >= bytes.len() {
            return Err(Error::UnexpectedEof);
        }
        Ok((PaddingFrame {}, pos + 1))
    }
}

/// A padding frame decodes back from its own encoding wherever it sits.
pub proof fn lemma_padding_round_trip(s: Seq<u8>, pos: int, f: PaddingFrame)
    requires
        0 <= pos,
        pos + 1 <= s.len(),
        s.subrange(pos, pos + 1) == padding_bytes(f),
    ensures
        parse_padding(s, pos) == Ok::<_, Error>((f, pos + 1)),
{
}

} // verus!
