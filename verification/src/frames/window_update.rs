use vstd::prelude::*;

use crate::errors::Error;
use crate::wire::{
    be_bytes, be_val, decode_result_matches, lemma_be_bytes_len, lemma_be_val_be_bytes,
    lemma_pow256_values, pow256, push_be, read_be,
};

verus! {

pub const FRAME_WINDOW_UPDATE: u8 = 0x04;

#[derive(Clone, Copy, Debug, Default, PartialEq, Eq, Structural)]
pub struct WindowUpdateFrame {
    pub stream_id: u32,
    pub byte_offset: u64,
}

impl View for WindowUpdateFrame {
    type V = WindowUpdateFrame;

    open spec fn view(&self) -> WindowUpdateFrame {
        *self
    }
}

/// Wire image: the type byte, a four-byte stream id, an eight-byte offset.
pub open spec fn window_update_bytes(f: WindowUpdateFrame) -> Seq<u8> {
    seq![FRAME_WINDOW_UPDATE] + be_bytes(f.stream_id as nat, 4) + be_bytes(f.byte_offset as nat, 8)
}

pub open spec fn parse_window_update(s: Seq<u8>, pos: int) -> Result<
    (WindowUpdateFrame, int),
    Error,
> {
    if pos >= s.len() {
        Err(Error::UnexpectedEof)
    } else if pos + 13 > s.len() {
        Err(Error::Decoding)
    } else {
        Ok(
            (
                WindowUpdateFrame {
                    stream_id: be_val(s.subrange(pos + 1, pos + 5)) as u32,
                    byte_offset: be_val(s.subrange(pos + 5, pos + 13)) as u64,
                },
                pos + 13,
            ),
        )
    }
}

impl WindowUpdateFrame {
    pub fn encode(&self, out: &mut Vec<u8>)
        ensures
            final(out)@ == old(out)@ + window_update_bytes(self@),
    {
        out.push(FRAME_WINDOW_UPDATE);
        push_be(out, self.stream_id as u64, 4);
        push_be(out, self.byte_offset, 8);
        proof {
            assert(out@ =~= old(out)@ + window_update_bytes(self@));
        }
    }

    pub fn decode(bytes: &Vec<u8>, pos: usize) -> (r: Result<(WindowUpdateFrame, usize), Error>)
        requires
            pos < bytes@.len() ==> bytes@[pos as int] == FRAME_WINDOW_UPDATE,
        ensures
            decode_result_matches(r, parse_window_update(bytes@, pos as int)),
    {
        if pos >= bytes.len() {
            return Err(Error::UnexpectedEof);
        }
        let (stream_id, mid) = match read_be(bytes, pos + 1, 4) {
            Ok(p) => p,
            Err(e) => {
                return Err(e);
            },
        };
        let (byte_offset, end) = match read_be(bytes, mid, 8) {
            Ok(p) => p,
            Err(e) => {
                return Err(e);
            },
        };
        proof {
            crate::wire::lemma_be_val_bound(bytes@.subrange(pos + 1, pos + 5));
            lemma_pow256_values();
        }
        Ok((WindowUpdateFrame { stream_id: stream_id as u32, byte_offset }, end))
    }
}

/// A window-update frame decodes back from its own encoding wherever it
/// sits.
pub proof fn lemma_window_update_round_trip(s: Seq<u8>, pos: int, f: WindowUpdateFrame)
    requires
        0 <= pos,
        pos + 13 <= s.len(),
        s.subrange(pos, pos + 13) == window_update_bytes(f),
    ensures
        parse_window_update(s, pos) == Ok::<_, Error>((f, pos + 13)),
{
    let t = window_update_bytes(f);
    lemma_be_bytes_len(f.stream_id as nat, 4);
    lemma_be_bytes_len(f.byte_offset as nat, 8);
    crate::wire::lemma_subrange_nested(s, pos, 13, 1, 5);
    crate::wire::lemma_subrange_nested(s, pos, 13, 5, 13);
    assert(t.subrange(1, 5) =~= be_bytes(f.stream_id as nat, 4));
    assert(t.subrange(5, 13) =~= be_bytes(f.byte_offset as nat, 8));
    lemma_be_val_be_bytes(f.stream_id as nat, 4);
    lemma_be_val_be_bytes(f.byte_offset as nat, 8);
    lemma_pow256_values();
    vstd::arithmetic::div_mod::lemma_small_mod(f.stream_id as nat, pow256(4));
    vstd::arithmetic::div_mod::lemma_small_mod(f.byte_offset as nat, pow256(8));
}

} // verus!
