use vstd::prelude::*;

use crate::errors::Error;
use crate::wire::{
    be_bytes, be_val, decode_result_matches, lemma_be_bytes_len, lemma_be_val_be_bytes,
    lemma_pow256_values, pow256, push_be, read_be,
};

verus! {

pub const FRAME_RST_STREAM: u8 = 0x01;

#[derive(Clone, Copy, Debug, Default, PartialEq, Eq, Structural)]
pub struct RstStreamFrame {
    pub error_code: u32,
    pub stream_id: u32,
    pub final_offset: u64,
}

impl View for RstStreamFrame {
    type V = RstStreamFrame;

    open spec fn view(&self) -> RstStreamFrame {
        *self
    }
}

/// Wire image: the type byte, a four-byte error code, a four-byte stream
/// id, an eight-byte final offset.
pub open spec fn rst_stream_bytes(f: RstStreamFrame) -> Seq<u8> {
    seq![FRAME_RST_STREAM] + be_bytes(f.error_code as nat, 4) + be_bytes(f.stream_id as nat, 4)
        + be_bytes(f.final_offset as nat, 8)
}

pub open spec fn parse_rst_stream(s: Seq<u8>, pos: int) -> Result<(RstStreamFrame, int), Error> {
    if pos >= s.len() {
        Err(Error::UnexpectedEof)
    } else if pos + 17 > s.len() {
        Err(Error::Decoding)
    } else {
        Ok(
            (
                RstStreamFrame {
                    error_code: be_val(s.subrange(pos + 1, pos + 5)) as u32,
                    stream_id: be_val(s.subrange(pos + 5, pos + 9)) as u32,
                    final_offset: be_val(s.subrange(pos + 9, pos + 17)) as u64,
                },
                pos + 17,
            ),
        )
    }
}

impl RstStreamFrame {
    pub fn encode(&self, out: &mut Vec<u8>)
        ensures
            final(out)@ == old(out)@ + rst_stream_bytes(self@),
    {
        out.push(FRAME_RST_STREAM);
        push_be(out, self.error_code as u64, 4);
        push_be(out, self.stream_id as u64, 4);
        push_be(out, self.final_offset, 8);
        proof {
            assert(out@ =~= old(out)@ + rst_stream_bytes(self@));
        }
    }

    pub fn decode(bytes: &Vec<u8>, pos: usize) -> (r: Result<(RstStreamFrame, usize), Error>)
        requires
            pos < bytes@.len() ==> bytes@[pos as int] == FRAME_RST_STREAM,
        ensures
            decode_result_matches(r, parse_rst_stream(bytes@, pos as int)),
    {
        if pos >= bytes.len() {
            return Err(Error::UnexpectedEof);
        }
        let (error_code, p1) = match read_be(bytes, pos + 1, 4) {
            Ok(p) => p,
            Err(e) => {
                return Err(e);
            },
        };
        let (stream_id, p2) = match read_be(bytes, p1, 4) {
            Ok(p) => p,
            Err(e) => {
                return Err(e);
            },
        };
        let (final_offset, end) = match read_be(bytes, p2, 8) {
            Ok(p) => p,
            Err(e) => {
                return Err(e);
            },
        };
        proof {
            crate::wire::lemma_be_val_bound(bytes@.subrange(pos + 1, pos + 5));
            crate::wire::lemma_be_val_bound(bytes@.subrange(pos + 5, pos + 9));
            lemma_pow256_values();
        }
        Ok(
            (
                RstStreamFrame {
                    error_code: error_code as u32,
                    stream_id: stream_id as u32,
                    final_offset,
                },
                end,
            ),
        )
    }
}

/// A stream-reset frame decodes back from its own encoding wherever it
/// sits.
pub proof fn lemma_rst_stream_round_trip(s: Seq<u8>, pos: int, f: RstStreamFrame)
    requires
        0 <= pos,
        pos + 17 <= s.len(),
        s.subrange(pos, pos + 17) == rst_stream_bytes(f),
    ensures
        parse_rst_stream(s, pos) == Ok::<_, Error>((f, pos + 17)),
{
    let t = rst_stream_bytes(f);
    lemma_be_bytes_len(f.error_code as nat, 4);
    lemma_be_bytes_len(f.stream_id as nat, 4);
    lemma_be_bytes_len(f.final_offset as nat, 8);
    crate::wire::lemma_subrange_nested(s, pos, 17, 1, 5);
    crate::wire::lemma_subrange_nested(s, pos, 17, 5, 9);
    crate::wire::lemma_subrange_nested(s, pos, 17, 9, 17);
    assert(t.subrange(1, 5) =~= be_bytes(f.error_code as nat, 4));
    assert(t.subrange(5, 9) =~= be_bytes(f.stream_id as nat, 4));
    assert(t.subrange(9, 17) =~= be_bytes(f.final_offset as nat, 8));
    lemma_be_val_be_bytes(f.error_code as nat, 4);
    lemma_be_val_be_bytes(f.stream_id as nat, 4);
    lemma_be_val_be_bytes(f.final_offset as nat, 8);
    lemma_pow256_values();
    vstd::arithmetic::div_mod::lemma_small_mod(f.error_code as nat, pow256(4));
    vstd::arithmetic::div_mod::lemma_small_mod(f.stream_id as nat, pow256(4));
    vstd::arithmetic::div_mod::lemma_small_mod(f.final_offset as nat, pow256(8));
}

} // verus!
