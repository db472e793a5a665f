//! Reason-phrase fields shared by the connection-close and go-away
//! frames: a two-byte big-endian length prefix followed by the bytes;
//! length zero means the phrase is absent.

use vstd::prelude::*;

use crate::errors::Error;
use crate::wire::{
    be_bytes, be_val, lemma_be_bytes_len, lemma_be_val_be_bytes, lemma_pow256_values, pow256,
    push_be, push_bytes, read_be, read_bytes,
};

verus! {

/// Wire image of an optional reason phrase.
pub open spec fn reason_bytes(r: Option<Seq<u8>>) -> Seq<u8> {
    match r {
        Some(b) => be_bytes(b.len(), 2) + b,
        None => be_bytes(0, 2),
    }
}

/// The length prefix is two bytes, so the phrase cannot exceed 0xFFFF.
pub open spec fn reason_valid(r: Option<Seq<u8>>) -> bool {
    match r {
        Some(b) => b.len() <= 0xFFFF,
        None => true,
    }
}

pub open spec fn parse_reason(s: Seq<u8>, pos: int) -> Result<(Option<Seq<u8>>, int), Error> {
    if pos + 2 > s.len() {
        Err(Error::Decoding)
    } else {
        let n = be_val(s.subrange(pos, pos + 2)) as int;
        if n == 0 {
            Ok((None, pos + 2))
        } else if pos + 2 + n > s.len() {
            Err(Error::Decoding)
        } else {
            Ok((Some(s.subrange(pos + 2, pos + 2 + n)), pos + 2 + n))
        }
    }
}

pub fn encode_reason_phrase(out: &mut Vec<u8>, reason_phrase: &Option<Vec<u8>>)
    requires
        reason_valid(reason_phrase.deep_view()),
    ensures
        final(out)@ == old(out)@ + reason_bytes(reason_phrase.deep_view()),
{
    match reason_phrase {
        Some(reason) => {
            push_be(out, reason.len() as u64, 2);
            push_bytes(out, reason);
            proof {
                assert(reason.deep_view() =~= reason@);
                assert(out@ =~= old(out)@ + reason_bytes(reason_phrase.deep_view()));
            }
        },
        None => {
            push_be(out, 0, 2);
        },
    }
}

pub fn decode_reason_phrase(bytes: &Vec<u8>, pos: usize) -> (r: Result<
    (Option<Vec<u8>>, usize),
    Error,
>)
    ensures
        match (r, parse_reason(bytes@, pos as int)) {
            (Ok((v, p)), Ok((sv, sp))) => v.deep_view() == sv && p as int == sp,
            (Err(e), Err(se)) => e == se,
            _ => false,
        },
{
    let (n, p) = match read_be(bytes, pos, 2) {
        Ok(p) => p,
        Err(e) => {
            return Err(e);
        },
    };
    proof {
        crate::wire::lemma_be_val_bound(bytes@.subrange(pos as int, pos + 2));
        lemma_pow256_values();
    }
    if n == 0 {
        return Ok((None, p));
    }
    match read_bytes(bytes, p, n as usize) {
        Ok((v, end)) => {
            proof {
                assert(v.deep_view() =~= v@);
            }
            Ok((Some(v), end))
        },
        Err(e) => Err(e),
    }
}

/// A present, non-empty reason phrase and an absent one both decode back
/// from their own encodings, wherever they sit; an empty phrase encodes
/// as absent.
pub proof fn lemma_reason_round_trip(s: Seq<u8>, pos: int, r: Option<Seq<u8>>)
    requires
        reason_valid(r),
        r matches Some(b) ==> b.len() >= 1,
        0 <= pos,
        pos + reason_bytes(r).len() <= s.len(),
        s.subrange(pos, pos + reason_bytes(r).len()) == reason_bytes(r),
    ensures
        parse_reason(s, pos) == Ok::<_, Error>((r, pos + reason_bytes(r).len())),
{
    lemma_pow256_values();
    let t = reason_bytes(r);
    match r {
        Some(b) => {
            lemma_be_bytes_len(b.len(), 2);
            crate::wire::lemma_subrange_nested(s, pos, t.len() as int, 0, 2);
            assert(t.subrange(0, 2) =~= be_bytes(b.len(), 2));
            lemma_be_val_be_bytes(b.len(), 2);
            vstd::arithmetic::div_mod::lemma_small_mod(b.len(), pow256(2));
            crate::wire::lemma_subrange_nested(s, pos, t.len() as int, 2, 2 + b.len() as int);
            assert(t.subrange(2, 2 + b.len() as int) =~= b);
        },
        None => {
            lemma_be_bytes_len(0, 2);
            crate::wire::lemma_subrange_nested(s, pos, t.len() as int, 0, 2);
            assert(t.subrange(0, 2) =~= be_bytes(0, 2));
            lemma_be_val_be_bytes(0, 2);
        },
    }
}

} // verus!
