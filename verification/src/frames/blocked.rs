use vstd::prelude::*;

use crate::errors::Error;
use crate::wire::{
    be_bytes, be_val, decode_result_matches, lemma_be_bytes_len, lemma_be_val_be_bytes,
    lemma_pow256_values, pow256, push_be, read_be,
};

verus! {

pub const FRAME_BLOCKED: u8 = 0x05;

#[derive(Clone, Copy, Debug, Default, PartialEq, Eq, Structural)]
pub struct BlockedFrame {
    pub stream_id: u32,
}

impl View for BlockedFrame {
    type V = BlockedFrame;

    open spec fn view(&self) -> BlockedFrame {
        *self
    }
}

/// Wire image: the type byte, then the stream id as four bytes.
pub open spec fn blocked_bytes(f: BlockedFrame) -> Seq<u8> {
    seq![FRAME_BLOCKED] + be_bytes(f.stream_id as nat, 4)
}

pub open spec fn parse_blocked(s: Seq<u8>, pos: int) -> Result<(BlockedFrame, int), Error> {
    if pos >= s.len() {
        Err(Error::UnexpectedEof)
    } else if pos + 5 > s.len() {
        Err(Error::Decoding)
    } else {
        Ok((BlockedFrame { stream_id: be_val(s.subrange(pos + 1, pos + 5)) as u32 }, pos + 5))
    }
}

impl BlockedFrame {
    pub fn encode(&self, out: &mut Vec<u8>)
        ensures
            final(out)@ == old(out)@ + blocked_bytes(self@),
    {
        out.push(FRAME_BLOCKED);
        push_be(out, self.stream_id as u64, 4);
        proof {
            assert(out@ =~= old(out)@ + blocked_bytes(self@));
        }
    }

    pub fn decode(bytes: &Vec<u8>, pos: usize) -> (r: Result<(BlockedFrame, usize), Error>)
        requires
            pos < bytes@.len() ==> bytes@[pos as int] == FRAME_BLOCKED,
        ensures
            decode_result_matches(r, parse_blocked(bytes@, pos as int)),
    {
        if pos >= bytes.len() {
            return Err(Error::UnexpectedEof);
        }
        match read_be(bytes, pos + 1, 4) {
            Ok((stream_id, end)) => {
                proof {
                    crate::wire::lemma_be_val_bound(bytes@.subrange(pos + 1, pos + 5));
                    lemma_pow256_values();
                }
                Ok((BlockedFrame { stream_id: stream_id as u32 }, end))
            },
            Err(e) => Err(e),
        }
    }
}

/// A blocked frame decodes back from its own encoding wherever it sits.
pub proof fn lemma_blocked_round_trip(s: Seq<u8>, pos: int, f: BlockedFrame)
    requires
        0 <= pos,
        pos + 5 <= s.len(),
        s.subrange(pos, pos + 5) == blocked_bytes(f),
    ensures
        parse_blocked(s, pos) == Ok::<_, Error>((f, pos + 5)),
{
    let t = blocked_bytes(f);
    lemma_be_bytes_len(f.stream_id as nat, 4);
    crate::wire::lemma_subrange_nested(s, pos, 5, 1, 5);
    assert(t.subrange(1, 5) =~= be_bytes(f.stream_id as nat, 4));
    lemma_be_val_be_bytes(f.stream_id as nat, 4);
    lemma_pow256_values();
    vstd::arithmetic::div_mod::lemma_small_mod(f.stream_id as nat, pow256(4));
}

} // verus!
