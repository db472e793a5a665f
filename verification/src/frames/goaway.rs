use vstd::prelude::*;

use crate::errors::Error;
use crate::frames::utils::{
    decode_reason_phrase, encode_reason_phrase, lemma_reason_round_trip, parse_reason,
    reason_bytes, reason_valid,
};
use crate::wire::{
    be_bytes, be_val, decode_result_matches, lemma_be_bytes_len, lemma_be_val_be_bytes,
    lemma_pow256_values, pow256, push_be, read_be,
};

verus! {

pub const FRAME_GOAWAY: u8 = 0x03;

#[derive(Clone, Debug, PartialEq, Eq)]
pub struct GoAwayFrame {
    pub error_code: u32,
    pub last_good_stream_id: u32,
    pub reason_phrase: Option<Vec<u8>>,
}

/// Mathematical image of a go-away frame.
pub struct GoAwayFrameView {
    pub error_code: u32,
    pub last_good_stream_id: u32,
    pub reason_phrase: Option<Seq<u8>>,
}

impl View for GoAwayFrame {
    type V = GoAwayFrameView;

    open spec fn view(&self) -> GoAwayFrameView {
        GoAwayFrameView {
            error_code: self.error_code,
            last_good_stream_id: self.last_good_stream_id,
            reason_phrase: self.reason_phrase.deep_view(),
        }
    }
}

pub open spec fn goaway_valid(f: GoAwayFrameView) -> bool {
    reason_valid(f.reason_phrase)
}

/// Wire image: the type byte, a four-byte error code, a four-byte last
/// good stream id, the reason phrase.
pub open spec fn goaway_bytes(f: GoAwayFrameView) -> Seq<u8> {
    seq![FRAME_GOAWAY] + be_bytes(f.error_code as nat, 4) + be_bytes(
        f.last_good_stream_id as nat,
        4,
    ) + reason_bytes(f.reason_phrase)
}

pub open spec fn parse_goaway(s: Seq<u8>, pos: int) -> Result<(GoAwayFrameView, int), Error> {
    if pos >= s.len() {
        Err(Error::UnexpectedEof)
    } else if pos + 9 > s.len() {
        Err(Error::Decoding)
    } else {
        match parse_reason(s, pos + 9) {
            Ok((reason, end)) => Ok(
                (
                    GoAwayFrameView {
                        error_code: be_val(s.subrange(pos + 1, pos + 5)) as u32,
                        last_good_stream_id: be_val(s.subrange(pos + 5, pos + 9)) as u32,
                        reason_phrase: reason,
                    },
                    end,
                ),
            ),
            Err(e) => Err(e),
        }
    }
}

impl GoAwayFrame {
    pub fn encode(&self, out: &mut Vec<u8>)
        requires
            goaway_valid(self@),
        ensures
            final(out)@ == old(out)@ + goaway_bytes(self@),
    {
        out.push(FRAME_GOAWAY);
        push_be(out, self.error_code as u64, 4);
        push_be(out, self.last_good_stream_id as u64, 4);
        encode_reason_phrase(out, &self.reason_phrase);
        proof {
            assert(out@ =~= old(out)@ + goaway_bytes(self@));
        }
    }

    pub fn decode(bytes: &Vec<u8>, pos: usize) -> (r: Result<(GoAwayFrame, usize), Error>)
        requires
            pos < bytes@.len() ==> bytes@[pos as int] == FRAME_GOAWAY,
        ensures
            decode_result_matches(r, parse_goaway(bytes@, pos as int)),
    {
        if pos >= bytes.len() {
            return Err(Error::UnexpectedEof);
        }
        let (error_code, p1) = match read_be(bytes, pos + 1, 4) {
            Ok(p) => p,
            Err(e) => {
                return Err(e);
            },
        };
        let (last_good_stream_id, p2) = match read_be(bytes, p1, 4) {
            Ok(p) => p,
            Err(e) => {
                return Err(e);
            },
        };
        let (reason_phrase, end) = match decode_reason_phrase(bytes, p2) {
            Ok(p) => p,
            Err(e) => {
                return Err(e);
            },
        };
        proof {
            crate::wire::lemma_be_val_bound(bytes@.subrange(pos + 1, pos + 5));
            crate::wire::lemma_be_val_bound(bytes@.subrange(pos + 5, pos + 9));
            lemma_pow256_values();
        }
        Ok(
            (
                GoAwayFrame {
                    error_code: error_code as u32,
                    last_good_stream_id: last_good_stream_id as u32,
                    reason_phrase,
                },
                end,
            ),
        )
    }
}

/// A go-away frame with a valid (absent or non-empty) reason phrase
/// decodes back from its own encoding wherever it sits.
pub proof fn lemma_goaway_round_trip(s: Seq<u8>, pos: int, f: GoAwayFrameView)
    requires
        goaway_valid(f),
        f.reason_phrase matches Some(b) ==> b.len() >= 1,
        0 <= pos,
        pos + goaway_bytes(f).len() <= s.len(),
        s.subrange(pos, pos + goaway_bytes(f).len()) == goaway_bytes(f),
    ensures
        parse_goaway(s, pos) == Ok::<_, Error>((f, pos + goaway_bytes(f).len())),
{
    let t = goaway_bytes(f);
    let tl = t.len() as int;
    lemma_be_bytes_len(f.error_code as nat, 4);
    lemma_be_bytes_len(f.last_good_stream_id as nat, 4);
    crate::wire::lemma_subrange_nested(s, pos, tl, 1, 5);
    crate::wire::lemma_subrange_nested(s, pos, tl, 5, 9);
    assert(t.subrange(1, 5) =~= be_bytes(f.error_code as nat, 4));
    assert(t.subrange(5, 9) =~= be_bytes(f.last_good_stream_id as nat, 4));
    lemma_be_val_be_bytes(f.error_code as nat, 4);
    lemma_be_val_be_bytes(f.last_good_stream_id as nat, 4);
    lemma_pow256_values();
    vstd::arithmetic::div_mod::lemma_small_mod(f.error_code as nat, pow256(4));
    vstd::arithmetic::div_mod::lemma_small_mod(f.last_good_stream_id as nat, pow256(4));
    crate::wire::lemma_subrange_nested(s, pos, tl, 9, tl);
    assert(t.subrange(9, tl) =~= reason_bytes(f.reason_phrase));
    lemma_reason_round_trip(s, pos + 9, f.reason_phrase);
}

} // verus!
