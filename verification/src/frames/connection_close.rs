use vstd::prelude::*;

use crate::errors::Error;
use crate::frames::utils::{
    decode_reason_phrase, encode_reason_phrase, lemma_reason_round_trip, parse_reason,
    reason_bytes, reason_valid,
};
use crate::wire::{
    be_bytes, be_val, decode_result_matches, lemma_be_bytes_len, lemma_be_val_be_bytes,
    lemma_pow256_values, pow256, push_be, read_be,
};

verus! {

pub const FRAME_CONNECTION_CLOSE: u8 = 0x02;

#[derive(Clone, Debug, PartialEq, Eq)]
pub struct ConnectionCloseFrame {
    pub error_code: u32,
    pub reason_phrase: Option<Vec<u8>>,
}

/// Mathematical image of a connection-close frame.
pub struct ConnectionCloseFrameView {
    pub error_code: u32,
    pub reason_phrase: Option<Seq<u8>>,
}

impl View for ConnectionCloseFrame {
    type V = ConnectionCloseFrameView;

    open spec fn view(&self) -> ConnectionCloseFrameView {
        ConnectionCloseFrameView {
            error_code: self.error_code,
            reason_phrase: self.reason_phrase.deep_view(),
        }
    }
}

pub open spec fn connection_close_valid(f: ConnectionCloseFrameView) -> bool {
    reason_valid(f.reason_phrase)
}

/// Wire image: the type byte, a four-byte error code, the reason phrase.
pub open spec fn connection_close_bytes(f: ConnectionCloseFrameView) -> Seq<u8> {
    seq![FRAME_CONNECTION_CLOSE] + be_bytes(f.error_code as nat, 4) + reason_bytes(f.reason_phrase)
}

pub open spec fn parse_connection_close(s: Seq<u8>, pos: int) -> Result<
    (ConnectionCloseFrameView, int),
    Error,
> {
    if pos >= s.len() {
        Err(Error::UnexpectedEof)
    } else if pos + 5 > s.len() {
        Err(Error::Decoding)
    } else {
        match parse_reason(s, pos + 5) {
            Ok((reason, end)) => Ok(
                (
                    ConnectionCloseFrameView {
                        error_code: be_val(s.subrange(pos + 1, pos + 5)) as u32,
                        reason_phrase: reason,
                    },
                    end,
                ),
            ),
            Err(e) => Err(e),
        }
    }
}

impl ConnectionCloseFrame {
    pub fn encode(&self, out: &mut Vec<u8>)
        requires
            connection_close_valid(self@),
        ensures
            final(out)@ == old(out)@ + connection_close_bytes(self@),
    {
        out.push(FRAME_CONNECTION_CLOSE);
        push_be(out, self.error_code as u64, 4);
        encode_reason_phrase(out, &self.reason_phrase);
        proof {
            assert(out@ =~= old(out)@ + connection_close_bytes(self@));
        }
    }

    pub fn decode(bytes: &Vec<u8>, pos: usize) -> (r: Result<
        (ConnectionCloseFrame, usize),
        Error,
    >)
        requires
            pos < bytes@.len() ==> bytes@[pos as int] == FRAME_CONNECTION_CLOSE,
        ensures
            decode_result_matches(r, parse_connection_close(bytes@, pos as int)),
    {
        if pos >= bytes.len() {
            return Err(Error::UnexpectedEof);
        }
        let (error_code, p1) = match read_be(bytes, pos + 1, 4) {
            Ok(p) => p,
            Err(e) => {
                return Err(e);
            },
        };
        let (reason_phrase, end) = match decode_reason_phrase(bytes, p1) {
            Ok(p) => p,
            Err(e) => {
                return Err(e);
            },
        };
        proof {
            crate::wire::lemma_be_val_bound(bytes@.subrange(pos + 1, pos + 5));
            lemma_pow256_values();
        }
        Ok((ConnectionCloseFrame { error_code: error_code as u32, reason_phrase }, end))
    }
}

/// A connection-close frame with a valid (absent or non-empty) reason
/// phrase decodes back from its own encoding wherever it sits.
pub proof fn lemma_connection_close_round_trip(s: Seq<u8>, pos: int, f: ConnectionCloseFrameView)
    requires
        connection_close_valid(f),
        f.reason_phrase matches Some(b) ==> b.len() >= 1,
        0 <= pos,
        pos + connection_close_bytes(f).len() <= s.len(),
        s.subrange(pos, pos + connection_close_bytes(f).len()) == connection_close_bytes(f),
    ensures
        parse_connection_close(s, pos) == Ok::<_, Error>(
            (f, pos + connection_close_bytes(f).len()),
        ),
{
    let t = connection_close_bytes(f);
    let tl = t.len() as int;
    lemma_be_bytes_len(f.error_code as nat, 4);
    crate::wire::lemma_subrange_nested(s, pos, tl, 1, 5);
    assert(t.subrange(1, 5) =~= be_bytes(f.error_code as nat, 4));
    lemma_be_val_be_bytes(f.error_code as nat, 4);
    lemma_pow256_values();
    vstd::arithmetic::div_mod::lemma_small_mod(f.error_code as nat, pow256(4));
    crate::wire::lemma_subrange_nested(s, pos, tl, 5, tl);
    assert(t.subrange(5, tl) =~= reason_bytes(f.reason_phrase));
    lemma_reason_round_trip(s, pos + 5, f.reason_phrase);
}

} // verus!
