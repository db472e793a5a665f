use vstd::prelude::*;

use crate::errors::Error;
use crate::wire::{
    be_bytes, be_val, decode_result_matches, lemma_be_bytes_len, lemma_be_val_be_bytes,
    lemma_be_val_bound, lemma_pow256_values, pow256, push_be, read_be,
};

verus! {

pub const FLAG_ACK: u8 = 0x40;
pub const FLAG_EXTRA_ACK_BLOCKS: u8 = 0x20;

#[derive(Clone, Copy, Debug, Default, PartialEq, Eq, Structural)]
pub struct ExtraAckBlock {
    pub gap: u8,
    pub block_length: u64,
}

#[derive(Clone, Copy, Debug, Default, PartialEq, Eq, Structural)]
pub struct FirstAckTimestamp {
    pub delta_la: u8,
    pub delta_timestamp: u32,
}

#[derive(Clone, Copy, Debug, Default, PartialEq, Eq, Structural)]
pub struct ExtraAckTimestamp {
    pub delta_la: u8,
    pub delta_timestamp: u16,
}

#[derive(Clone, Debug, Default, PartialEq, Eq)]
pub struct AckFrame {
    pub largest_acknowledged: u64,
    pub ack_delay: u16,
    pub first_ack_block_length: u64,
    pub extra_ack_blocks: Vec<ExtraAckBlock>,
    pub first_timestamp: Option<FirstAckTimestamp>,
    pub extra_timestamps: Vec<ExtraAckTimestamp>,
}

/// Mathematical image of an ack frame.
pub struct AckFrameView {
    pub largest_acknowledged: u64,
    pub ack_delay: u16,
    pub first_ack_block_length: u64,
    pub extra_ack_blocks: Seq<ExtraAckBlock>,
    pub first_timestamp: Option<FirstAckTimestamp>,
    pub extra_timestamps: Seq<ExtraAckTimestamp>,
}

impl View for AckFrame {
    type V = AckFrameView;

    open spec fn view(&self) -> AckFrameView {
        AckFrameView {
            largest_acknowledged: self.largest_acknowledged,
            ack_delay: self.ack_delay,
            first_ack_block_length: self.first_ack_block_length,
            extra_ack_blocks: self.extra_ack_blocks@,
            first_timestamp: self.first_timestamp,
            extra_timestamps: self.extra_timestamps@,
        }
    }
}

/// Number of entries announced by the timestamp-count byte.
pub open spec fn ack_ts_count(f: AckFrameView) -> int {
    (if f.first_timestamp is Some {
        1int
    } else {
        0int
    }) + f.extra_timestamps.len()
}

/// Counts must fit their one-byte fields, block lengths their six-byte
/// fields, and extra timestamps make no sense without a first one.
pub open spec fn ack_valid(f: AckFrameView) -> bool {
    &&& f.extra_ack_blocks.len() <= 255
    &&& ack_ts_count(f) <= 255
    &&& f.first_timestamp is None ==> f.extra_timestamps.len() == 0
    &&& (f.first_ack_block_length as nat) < pow256(6)
    &&& forall|i: int|
        0 <= i < f.extra_ack_blocks.len() ==> (#[trigger] f.extra_ack_blocks[i].block_length
            as nat) < pow256(6)
}

/// The type octet: ack pattern in the two high bits, the extra-blocks
/// flag, and the full six-byte widths selected for both length fields.
pub open spec fn ack_type_byte(has_extras: bool) -> u8 {
    if has_extras {
        0x6F
    } else {
        0x4F
    }
}

/// Wire image of the extra ack blocks: a gap byte and a six-byte block
/// length for each.
pub open spec fn ack_blocks_bytes(bs: Seq<ExtraAckBlock>) -> Seq<u8>
    decreases bs.len(),
{
    if bs.len() == 0 {
        Seq::empty()
    } else {
        seq![bs[0].gap] + be_bytes(bs[0].block_length as nat, 6) + ack_blocks_bytes(bs.drop_first())
    }
}

/// Wire image of the extra timestamps: a delta byte and a two-byte value.
pub open spec fn extra_ts_bytes(ts: Seq<ExtraAckTimestamp>) -> Seq<u8>
    decreases ts.len(),
{
    if ts.len() == 0 {
        Seq::empty()
    } else {
        seq![ts[0].delta_la] + be_bytes(ts[0].delta_timestamp as nat, 2) + extra_ts_bytes(
            ts.drop_first(),
        )
    }
}

/// Wire image of the timestamp section: nothing, or a first timestamp
/// (delta byte, four-byte value) followed by the extra timestamps.
pub open spec fn ack_ts_bytes(first: Option<FirstAckTimestamp>, ts: Seq<ExtraAckTimestamp>) -> Seq<
    u8,
> {
    match first {
        None => Seq::empty(),
        Some(ft) => seq![ft.delta_la] + be_bytes(ft.delta_timestamp as nat, 4) + extra_ts_bytes(ts),
    }
}

/// Wire image of a whole ack frame.
pub open spec fn ack_bytes(f: AckFrameView) -> Seq<u8> {
    seq![ack_type_byte(f.extra_ack_blocks.len() > 0)] + (if f.extra_ack_blocks.len() > 0 {
        seq![f.extra_ack_blocks.len() as u8]
    } else {
        Seq::empty()
    }) + seq![ack_ts_count(f) as u8] + be_bytes(f.largest_acknowledged as nat, 6) + be_bytes(
        f.ack_delay as nat,
        2,
    ) + be_bytes(f.first_ack_block_length as nat, 6) + ack_blocks_bytes(f.extra_ack_blocks)
        + ack_ts_bytes(f.first_timestamp, f.extra_timestamps)
}

/// The field width declared by a two-bit size code.
pub open spec fn ack_size_of(code: int) -> int {
    if code == 0 {
        1
    } else if code == 1 {
        2
    } else if code == 2 {
        4
    } else {
        6
    }
}

pub open spec fn parse_ack_blocks(s: Seq<u8>, pos: int, count: int, bsize: int) -> Result<
    (Seq<ExtraAckBlock>, int),
    Error,
>
    decreases count,
{
    if count <= 0 {
        Ok((Seq::empty(), pos))
    } else if pos + 1 + bsize > s.len() || pos < 0 {
        Err(Error::Decoding)
    } else {
        let b = ExtraAckBlock {
            gap: s[pos],
            block_length: be_val(s.subrange(pos + 1, pos + 1 + bsize)) as u64,
        };
        match parse_ack_blocks(s, pos + 1 + bsize, count - 1, bsize) {
            Ok((rest, end)) => Ok((seq![b] + rest, end)),
            Err(e) => Err(e),
        }
    }
}

pub open spec fn parse_extra_ts(s: Seq<u8>, pos: int, count: int) -> Result<
    (Seq<ExtraAckTimestamp>, int),
    Error,
>
    decreases count,
{
    if count <= 0 {
        Ok((Seq::empty(), pos))
    } else if pos + 3 > s.len() || pos < 0 {
        Err(Error::Decoding)
    } else {
        let t = ExtraAckTimestamp {
            delta_la: s[pos],
            delta_timestamp: be_val(s.subrange(pos + 1, pos + 3)) as u16,
        };
        match parse_extra_ts(s, pos + 3, count - 1) {
            Ok((rest, end)) => Ok((seq![t] + rest, end)),
            Err(e) => Err(e),
        }
    }
}

pub open spec fn parse_ack(s: Seq<u8>, pos: int) -> Result<(AckFrameView, int), Error> {
    if pos >= s.len() {
        Err(Error::UnexpectedEof)
    } else {
        let t = s[pos] as int;
        let has_extra = (t / 32) % 2 == 1;
        let la_size = ack_size_of((t / 4) % 4);
        let ab_size = ack_size_of(t % 4);
        let p0 = pos + 1;
        if has_extra && p0 + 1 > s.len() {
            Err(Error::Decoding)
        } else {
            let ebc = if has_extra {
                s[p0] as int
            } else {
                0
            };
            let p1 = if has_extra {
                p0 + 1
            } else {
                p0
            };
            if p1 + 1 > s.len() {
                Err(Error::Decoding)
            } else {
                let tsc = s[p1] as int;
                let p2 = p1 + 1;
                if p2 + la_size > s.len() {
                    Err(Error::Decoding)
                } else {
                    let la = be_val(s.subrange(p2, p2 + la_size)) as u64;
                    let p3 = p2 + la_size;
                    if p3 + 2 > s.len() {
                        Err(Error::Decoding)
                    } else {
                        let delay = be_val(s.subrange(p3, p3 + 2)) as u16;
                        let p4 = p3 + 2;
                        if p4 + ab_size > s.len() {
                            Err(Error::Decoding)
                        } else {
                            let fabl = be_val(s.subrange(p4, p4 + ab_size)) as u64;
                            let p5 = p4 + ab_size;
                            match parse_ack_blocks(s, p5, ebc, ab_size) {
                                Err(e) => Err(e),
                                Ok((blocks, p6)) => {
                                    if tsc > 0 {
                                        if p6 + 5 > s.len() {
                                            Err(Error::Decoding)
                                        } else {
                                            let ft = FirstAckTimestamp {
                                                delta_la: s[p6],
                                                delta_timestamp: be_val(
                                                    s.subrange(p6 + 1, p6 + 5),
                                                ) as u32,
                                            };
                                            match parse_extra_ts(s, p6 + 5, tsc - 1) {
                                                Err(e) => Err(e),
                                                Ok((ets, end)) => Ok(
                                                    (
                                                        AckFrameView {
                                                            largest_acknowledged: la,
                                                            ack_delay: delay,
                                                            first_ack_block_length: fabl,
                                                            extra_ack_blocks: blocks,
                                                            first_timestamp: Some(ft),
                                                            extra_timestamps: ets,
                                                        },
                                                        end,
                                                    ),
                                                ),
                                            }
                                        }
                                    } else {
                                        Ok(
                                            (
                                                AckFrameView {
                                                    largest_acknowledged: la,
                                                    ack_delay: delay,
                                                    first_ack_block_length: fabl,
                                                    extra_ack_blocks: blocks,
                                                    first_timestamp: None,
                                                    extra_timestamps: Seq::empty(),
                                                },
                                                p6,
                                            ),
                                        )
                                    }
                                },
                            }
                        }
                    }
                }
            }
        }
    }
}

fn decode_ack_blocks(bytes: &Vec<u8>, pos: usize, count: usize, bsize: usize) -> (r: Result<
    (Vec<ExtraAckBlock>, usize),
    Error,
>)
    requires
        1 <= bsize <= 6,
    ensures
        match (r, parse_ack_blocks(bytes@, pos as int, count as int, bsize as int)) {
            (Ok((v, p)), Ok((sv, sp))) => v@ == sv && p as int == sp,
            (Err(e), Err(se)) => e == se,
            _ => false,
        },
    decreases count,
{
    if count == 0 {
        return Ok((Vec::new(), pos));
    }
    if pos >= bytes.len() || 1 + bsize > bytes.len() - pos {
        return Err(Error::Decoding);
    }
    let gap = bytes[pos];
    let (block_length, p1) = match read_be(bytes, pos + 1, bsize) {
        Ok(p) => p,
        Err(e) => {
            return Err(e);
        },
    };
    match decode_ack_blocks(bytes, p1, count - 1, bsize) {
        Ok((mut rest, end)) => {
            rest.insert(0, ExtraAckBlock { gap, block_length });
            proof {
                let b = ExtraAckBlock { gap, block_length };
                assert(rest@ =~= seq![b] + rest@.subrange(1, rest@.len() as int));
            }
            Ok((rest, end))
        },
        Err(e) => Err(e),
    }
}

fn decode_extra_ts(bytes: &Vec<u8>, pos: usize, count: usize) -> (r: Result<
    (Vec<ExtraAckTimestamp>, usize),
    Error,
>)
    ensures
        match (r, parse_extra_ts(bytes@, pos as int, count as int)) {
            (Ok((v, p)), Ok((sv, sp))) => v@ == sv && p as int == sp,
            (Err(e), Err(se)) => e == se,
            _ => false,
        },
    decreases count,
{
    if count == 0 {
        return Ok((Vec::new(), pos));
    }
    if pos >= bytes.len() || 3 > bytes.len() - pos {
        return Err(Error::Decoding);
    }
    let delta_la = bytes[pos];
    let (dt, p1) = match read_be(bytes, pos + 1, 2) {
        Ok(p) => p,
        Err(e) => {
            return Err(e);
        },
    };
    proof {
        lemma_be_val_bound(bytes@.subrange(pos + 1, pos + 3));
        lemma_pow256_values();
    }
    match decode_extra_ts(bytes, p1, count - 1) {
        Ok((mut rest, end)) => {
            rest.insert(0, ExtraAckTimestamp { delta_la, delta_timestamp: dt as u16 });
            proof {
                let t = ExtraAckTimestamp { delta_la, delta_timestamp: dt as u16 };
                assert(rest@ =~= seq![t] + rest@.subrange(1, rest@.len() as int));
            }
            Ok((rest, end))
        },
        Err(e) => Err(e),
    }
}

impl AckFrame {
    pub fn encode(&self, out: &mut Vec<u8>)
        requires
            ack_valid(self@),
        ensures
            final(out)@ == old(out)@ + ack_bytes(self@),
    {
        let has_extras = self.extra_ack_blocks.len() > 0;
        let frame_type: u8 = if has_extras {
            0x6F
        } else {
            0x4F
        };
        out.push(frame_type);
        if has_extras {
            out.push(self.extra_ack_blocks.len() as u8);
        }
        let ts_count: usize = (if self.first_timestamp.is_some() {
            1usize
        } else {
            0usize
        }) + self.extra_timestamps.len();
        out.push(ts_count as u8);
        push_be(out, self.largest_acknowledged, 6);
        push_be(out, self.ack_delay as u64, 2);
        push_be(out, self.first_ack_block_length, 6);
        let ghost mid = out@;
        let mut i: usize = 0;
        while i < self.extra_ack_blocks.len()
            invariant
                i <= self.extra_ack_blocks@.len(),
                out@ == mid + ack_blocks_bytes(self.extra_ack_blocks@.subrange(0, i as int)),
            decreases self.extra_ack_blocks@.len() - i,
        {
            let b = self.extra_ack_blocks[i];
            out.push(b.gap);
            push_be(out, b.block_length, 6);
            proof {
                lemma_ack_blocks_bytes_snoc(self.extra_ack_blocks@.subrange(0, i + 1));
                assert(self.extra_ack_blocks@.subrange(0, i + 1).drop_last() =~= self
                    .extra_ack_blocks@.subrange(0, i as int));
                assert(out@ =~= mid + ack_blocks_bytes(
                    self.extra_ack_blocks@.subrange(0, i + 1),
                ));
            }
            i = i + 1;
        }
        proof {
            assert(self.extra_ack_blocks@.subrange(0, self.extra_ack_blocks@.len() as int)
                =~= self.extra_ack_blocks@);
        }
        match &self.first_timestamp {
            Some(ft) => {
                out.push(ft.delta_la);
                push_be(out, ft.delta_timestamp as u64, 4);
                let ghost mid2 = out@;
                let mut j: usize = 0;
                while j < self.extra_timestamps.len()
                    invariant
                        j <= self.extra_timestamps@.len(),
                        out@ == mid2 + extra_ts_bytes(self.extra_timestamps@.subrange(0, j as int)),
                    decreases self.extra_timestamps@.len() - j,
                {
                    let e = self.extra_timestamps[j];
                    out.push(e.delta_la);
                    push_be(out, e.delta_timestamp as u64, 2);
                    proof {
                        lemma_extra_ts_bytes_snoc(self.extra_timestamps@.subrange(0, j + 1));
                        assert(self.extra_timestamps@.subrange(0, j + 1).drop_last() =~= self
                            .extra_timestamps@.subrange(0, j as int));
                        assert(out@ =~= mid2 + extra_ts_bytes(
                            self.extra_timestamps@.subrange(0, j + 1),
                        ));
                    }
                    j = j + 1;
                }
                proof {
                    assert(self.extra_timestamps@.subrange(0, self.extra_timestamps@.len() as int)
                        =~= self.extra_timestamps@);
                    assert(out@ =~= old(out)@ + ack_bytes(self@));
                }
            },
            None => {
                proof {
                    assert(out@ =~= old(out)@ + ack_bytes(self@));
                }
            },
        }
    }

    #[verifier::rlimit(100)]
    pub fn decode(bytes: &Vec<u8>, pos: usize) -> (r: Result<(AckFrame, usize), Error>)
        requires
            pos < bytes@.len() ==> (bytes@[pos as int] as int) / 64 == 1,
        ensures
            decode_result_matches(r, parse_ack(bytes@, pos as int)),
    {
        if pos >= bytes.len() {
            return Err(Error::UnexpectedEof);
        }
        let t = bytes[pos];
        let has_extra = (t / 32) % 2 == 1;
        let la_code = (t / 4) % 4;
        let la_size: usize = if la_code == 0 {
            1
        } else if la_code == 1 {
            2
        } else if la_code == 2 {
            4
        } else {
            6
        };
        let ab_code = t % 4;
        let ab_size: usize = if ab_code == 0 {
            1
        } else if ab_code == 1 {
            2
        } else if ab_code == 2 {
            4
        } else {
            6
        };
        let p0 = pos + 1;
        let (ebc, p1): (usize, usize) = if has_extra {
            if p0 >= bytes.len() {
                return Err(Error::Decoding);
            }
            (bytes[p0] as usize, p0 + 1)
        } else {
            (0, p0)
        };
        if p1 >= bytes.len() {
            return Err(Error::Decoding);
        }
        let tsc = bytes[p1];
        let p2 = p1 + 1;
        let (la, p3) = match read_be(bytes, p2, la_size) {
            Ok(p) => p,
            Err(e) => {
                return Err(e);
            },
        };
        let (delay, p4) = match read_be(bytes, p3, 2) {
            Ok(p) => p,
            Err(e) => {
                return Err(e);
            },
        };
        proof {
            lemma_be_val_bound(bytes@.subrange(p3 as int, p3 + 2));
            lemma_pow256_values();
        }
        let (fabl, p5) = match read_be(bytes, p4, ab_size) {
            Ok(p) => p,
            Err(e) => {
                return Err(e);
            },
        };
        let (extra_ack_blocks, p6) = match decode_ack_blocks(bytes, p5, ebc, ab_size) {
            Ok(p) => p,
            Err(e) => {
                return Err(e);
            },
        };
        if tsc > 0 {
            if p6 >= bytes.len() || 5 > bytes.len() - p6 {
                return Err(Error::Decoding);
            }
            let delta_la = bytes[p6];
            let (dt, p7) = match read_be(bytes, p6 + 1, 4) {
                Ok(p) => p,
                Err(e) => {
                    return Err(e);
                },
            };
            proof {
                lemma_be_val_bound(bytes@.subrange(p6 + 1, p6 + 5));
                lemma_pow256_values();
            }
            let first_timestamp = FirstAckTimestamp { delta_la, delta_timestamp: dt as u32 };
            let (extra_timestamps, end) = match decode_extra_ts(bytes, p7, (tsc - 1) as usize) {
                Ok(p) => p,
                Err(e) => {
                    return Err(e);
                },
            };
            Ok(
                (
                    AckFrame {
                        largest_acknowledged: la,
                        ack_delay: delay as u16,
                        first_ack_block_length: fabl,
                        extra_ack_blocks,
                        first_timestamp: Some(first_timestamp),
                        extra_timestamps,
                    },
                    end,
                ),
            )
        } else {
            Ok(
                (
                    AckFrame {
                        largest_acknowledged: la,
                        ack_delay: delay as u16,
                        first_ack_block_length: fabl,
                        extra_ack_blocks,
                        first_timestamp: None,
                        extra_timestamps: Vec::new(),
                    },
                    p6,
                ),
            )
        }
    }
}

/// The block section is seven bytes per block.
pub proof fn lemma_ack_blocks_bytes_len(bs: Seq<ExtraAckBlock>)
    ensures
        ack_blocks_bytes(bs).len() == 7 * bs.len(),
    decreases bs.len(),
{
    if bs.len() > 0 {
        lemma_be_bytes_len(bs[0].block_length as nat, 6);
        lemma_ack_blocks_bytes_len(bs.drop_first());
    }
}

/// The extra-timestamp section is three bytes per entry.
pub proof fn lemma_extra_ts_bytes_len(ts: Seq<ExtraAckTimestamp>)
    ensures
        extra_ts_bytes(ts).len() == 3 * ts.len(),
    decreases ts.len(),
{
    if ts.len() > 0 {
        lemma_be_bytes_len(ts[0].delta_timestamp as nat, 2);
        lemma_extra_ts_bytes_len(ts.drop_first());
    }
}

/// Appending one block appends its seven bytes.
proof fn lemma_ack_blocks_bytes_snoc(bs: Seq<ExtraAckBlock>)
    requires
        bs.len() > 0,
    ensures
        ack_blocks_bytes(bs) == ack_blocks_bytes(bs.drop_last()) + seq![bs.last().gap] + be_bytes(
            bs.last().block_length as nat,
            6,
        ),
    decreases bs.len(),
{
    if bs.len() == 1 {
        assert(bs.drop_last() =~= Seq::<ExtraAckBlock>::empty());
        assert(bs.drop_first() =~= Seq::<ExtraAckBlock>::empty());
        assert(ack_blocks_bytes(bs) =~= ack_blocks_bytes(bs.drop_last()) + seq![bs.last().gap]
            + be_bytes(bs.last().block_length as nat, 6));
    } else {
        lemma_ack_blocks_bytes_snoc(bs.drop_first());
        assert(bs.drop_first().drop_last() =~= bs.drop_last().drop_first());
        assert(bs.drop_first().last() == bs.last());
        assert(bs.drop_last()[0] == bs[0]);
        assert(bs.drop_last().len() > 0);
        assert(ack_blocks_bytes(bs) =~= ack_blocks_bytes(bs.drop_last()) + seq![bs.last().gap]
            + be_bytes(bs.last().block_length as nat, 6));
    }
}

/// A block section parses back from its encoding wherever it sits.
proof fn lemma_ack_blocks_round_trip(s: Seq<u8>, pos: int, bs: Seq<ExtraAckBlock>)
    requires
        0 <= pos,
        forall|i: int|
            0 <= i < bs.len() ==> ((#[trigger] bs[i]).block_length as nat) < pow256(6),
        pos + 7 * bs.len() <= s.len(),
        s.subrange(pos, pos + 7 * bs.len()) == ack_blocks_bytes(bs),
    ensures
        parse_ack_blocks(s, pos, bs.len() as int, 6) == Ok::<_, Error>((bs, pos + 7 * bs.len())),
    decreases bs.len(),
{
    if bs.len() == 0 {
        assert(bs =~= Seq::<ExtraAckBlock>::empty());
    } else {
        let bb = ack_blocks_bytes(bs);
        let tail = bs.drop_first();
        lemma_be_bytes_len(bs[0].block_length as nat, 6);
        lemma_ack_blocks_bytes_len(bs);
        lemma_ack_blocks_bytes_len(tail);
        assert(s[pos] == s.subrange(pos, pos + 7 * bs.len())[0]);
        assert(bb[0] == bs[0].gap);
        assert forall|i: int| 0 <= i < 6 implies s.subrange(pos + 1, pos + 7)[i] == be_bytes(
            bs[0].block_length as nat,
            6,
        )[i] by {
            assert(s.subrange(pos, pos + 7 * bs.len())[1 + i] == s[pos + 1 + i]);
            assert(bb[1 + i] == be_bytes(bs[0].block_length as nat, 6)[i]);
        }
        assert(s.subrange(pos + 1, pos + 7) =~= be_bytes(bs[0].block_length as nat, 6));
        lemma_be_val_be_bytes(bs[0].block_length as nat, 6);
        vstd::arithmetic::div_mod::lemma_small_mod(bs[0].block_length as nat, pow256(6));
        assert forall|i: int| 0 <= i < 7 * tail.len() implies s.subrange(
            pos + 7,
            pos + 7 + 7 * tail.len(),
        )[i] == ack_blocks_bytes(tail)[i] by {
            assert(s.subrange(pos, pos + 7 * bs.len())[7 + i] == s[pos + 7 + i]);
            assert(bb[7 + i] == ack_blocks_bytes(tail)[i]);
        }
        assert(s.subrange(pos + 7, pos + 7 + 7 * tail.len()) =~= ack_blocks_bytes(tail));
        lemma_ack_blocks_round_trip(s, pos + 7, tail);
        let head = ExtraAckBlock {
            gap: s[pos],
            block_length: be_val(s.subrange(pos + 1, pos + 7)) as u64,
        };
        assert(head == bs[0]);
        assert(seq![bs[0]] + tail =~= bs);
    }
}

/// An extra-timestamp section parses back from its encoding wherever it
/// sits.
proof fn lemma_extra_ts_round_trip(s: Seq<u8>, pos: int, ts: Seq<ExtraAckTimestamp>)
    requires
        0 <= pos,
        pos + 3 * ts.len() <= s.len(),
        s.subrange(pos, pos + 3 * ts.len()) == extra_ts_bytes(ts),
    ensures
        parse_extra_ts(s, pos, ts.len() as int) == Ok::<_, Error>((ts, pos + 3 * ts.len())),
    decreases ts.len(),
{
    if ts.len() == 0 {
        assert(ts =~= Seq::<ExtraAckTimestamp>::empty());
    } else {
        let bb = extra_ts_bytes(ts);
        let tail = ts.drop_first();
        lemma_be_bytes_len(ts[0].delta_timestamp as nat, 2);
        lemma_extra_ts_bytes_len(ts);
        lemma_extra_ts_bytes_len(tail);
        assert(s[pos] == s.subrange(pos, pos + 3 * ts.len())[0]);
        assert(bb[0] == ts[0].delta_la);
        assert forall|i: int| 0 <= i < 2 implies s.subrange(pos + 1, pos + 3)[i] == be_bytes(
            ts[0].delta_timestamp as nat,
            2,
        )[i] by {
            assert(s.subrange(pos, pos + 3 * ts.len())[1 + i] == s[pos + 1 + i]);
            assert(bb[1 + i] == be_bytes(ts[0].delta_timestamp as nat, 2)[i]);
        }
        assert(s.subrange(pos + 1, pos + 3) =~= be_bytes(ts[0].delta_timestamp as nat, 2));
        lemma_be_val_be_bytes(ts[0].delta_timestamp as nat, 2);
        lemma_pow256_values();
        vstd::arithmetic::div_mod::lemma_small_mod(ts[0].delta_timestamp as nat, pow256(2));
        assert forall|i: int| 0 <= i < 3 * tail.len() implies s.subrange(
            pos + 3,
            pos + 3 + 3 * tail.len(),
        )[i] == extra_ts_bytes(tail)[i] by {
            assert(s.subrange(pos, pos + 3 * ts.len())[3 + i] == s[pos + 3 + i]);
            assert(bb[3 + i] == extra_ts_bytes(tail)[i]);
        }
        assert(s.subrange(pos + 3, pos + 3 + 3 * tail.len()) =~= extra_ts_bytes(tail));
        lemma_extra_ts_round_trip(s, pos + 3, tail);
        let head = ExtraAckTimestamp {
            delta_la: s[pos],
            delta_timestamp: be_val(s.subrange(pos + 1, pos + 3)) as u16,
        };
        assert(head == ts[0]);
        assert(seq![ts[0]] + tail =~= ts);
    }
}

/// An ack frame's wire image opens with its type octet.
pub proof fn lemma_ack_bytes_first(f: AckFrameView)
    ensures
        ack_bytes(f).len() > 0,
        ack_bytes(f)[0] == ack_type_byte(f.extra_ack_blocks.len() > 0),
{
    let b = ack_bytes(f);
    let tb = seq![ack_type_byte(f.extra_ack_blocks.len() > 0)];
    let tail = b.subrange(1, b.len() as int);
    lemma_be_bytes_len(f.largest_acknowledged as nat, 6);
    lemma_be_bytes_len(f.ack_delay as nat, 2);
    lemma_be_bytes_len(f.first_ack_block_length as nat, 6);
    assert(b =~= Seq::<u8>::empty() + tb + tail);
    crate::wire::lemma_slice_of_concat(b, Seq::<u8>::empty(), tb, tail);
    assert(b[0] == b.subrange(0, 1)[0]);
}

/// The timestamp section parses back from where it sits in the buffer.
proof fn lemma_ack_ts_facts(
    s: Seq<u8>,
    p6: int,
    first: Option<FirstAckTimestamp>,
    ts: Seq<ExtraAckTimestamp>,
    rest: Seq<u8>,
)
    requires
        0 <= p6,
        first is None ==> ts.len() == 0,
        s.len() == p6 + ack_ts_bytes(first, ts).len() + rest.len(),
        s.subrange(p6, p6 + ack_ts_bytes(first, ts).len()) == ack_ts_bytes(first, ts),
    ensures
        first matches Some(ft) ==> {
            &&& s[p6] == ft.delta_la
            &&& s.subrange(p6 + 1, p6 + 5) == be_bytes(ft.delta_timestamp as nat, 4)
            &&& parse_extra_ts(s, p6 + 5, ts.len() as int) == Ok::<_, Error>(
                (ts, p6 + 5 + 3 * ts.len()),
            )
            &&& ack_ts_bytes(first, ts).len() == 5 + 3 * ts.len()
        },
        first is None ==> ack_ts_bytes(first, ts).len() == 0,
{
    match first {
        Some(ft) => {
            let sect = ack_ts_bytes(first, ts);
            lemma_be_bytes_len(ft.delta_timestamp as nat, 4);
            lemma_extra_ts_bytes_len(ts);
            assert(sect.len() == 5 + 3 * ts.len());
            assert(s[p6] == s.subrange(p6, p6 + sect.len())[0]);
            assert forall|i: int| 0 <= i < 4 implies s.subrange(p6 + 1, p6 + 5)[i] == be_bytes(
                ft.delta_timestamp as nat,
                4,
            )[i] by {
                assert(s.subrange(p6, p6 + sect.len())[1 + i] == s[p6 + 1 + i]);
                assert(sect[1 + i] == be_bytes(ft.delta_timestamp as nat, 4)[i]);
            }
            assert(s.subrange(p6 + 1, p6 + 5) =~= be_bytes(ft.delta_timestamp as nat, 4));
            assert forall|i: int| 0 <= i < 3 * ts.len() implies s.subrange(
                p6 + 5,
                p6 + 5 + 3 * ts.len(),
            )[i] == extra_ts_bytes(ts)[i] by {
                assert(s.subrange(p6, p6 + sect.len())[5 + i] == s[p6 + 5 + i]);
                assert(sect[5 + i] == extra_ts_bytes(ts)[i]);
            }
            assert(s.subrange(p6 + 5, p6 + 5 + 3 * ts.len()) =~= extra_ts_bytes(ts));
            lemma_extra_ts_round_trip(s, p6 + 5, ts);
        },
        None => {
            assert(ack_ts_bytes(first, ts).len() == 0);
        },
    }
}

/// An ack frame whose largest-acknowledged value fits its six-byte field
/// decodes back from its own encoding wherever it sits.
#[verifier::rlimit(100)]
pub proof fn lemma_ack_round_trip(s: Seq<u8>, pos: int, f: AckFrameView)
    requires
        ack_valid(f),
        (f.largest_acknowledged as nat) < pow256(6),
        0 <= pos,
        pos + ack_bytes(f).len() <= s.len(),
        s.subrange(pos, pos + ack_bytes(f).len()) == ack_bytes(f),
    ensures
        parse_ack(s, pos) == Ok::<_, Error>((f, pos + ack_bytes(f).len())),
{
    let t = ack_bytes(f);
    let tl = t.len() as int;
    let n = f.extra_ack_blocks.len() as int;
    let e: int = if n > 0 {
        1
    } else {
        0
    };
    let m = f.extra_timestamps.len() as int;
    lemma_be_bytes_len(f.largest_acknowledged as nat, 6);
    lemma_be_bytes_len(f.ack_delay as nat, 2);
    lemma_be_bytes_len(f.first_ack_block_length as nat, 6);
    lemma_ack_blocks_bytes_len(f.extra_ack_blocks);
    lemma_extra_ts_bytes_len(f.extra_timestamps);
    lemma_pow256_values();
    let p2 = 2 + e;
    assert(s[pos] == s.subrange(pos, pos + tl)[0]);
    assert(s[pos + 1] == s.subrange(pos, pos + tl)[1]);
    assert(s[pos + 1 + e] == s.subrange(pos, pos + tl)[1 + e]);
    crate::wire::lemma_subrange_nested(s, pos, tl, p2, p2 + 6);
    assert(t.subrange(p2, p2 + 6) =~= be_bytes(f.largest_acknowledged as nat, 6));
    lemma_be_val_be_bytes(f.largest_acknowledged as nat, 6);
    vstd::arithmetic::div_mod::lemma_small_mod(f.largest_acknowledged as nat, pow256(6));
    crate::wire::lemma_subrange_nested(s, pos, tl, p2 + 6, p2 + 8);
    assert(t.subrange(p2 + 6, p2 + 8) =~= be_bytes(f.ack_delay as nat, 2));
    lemma_be_val_be_bytes(f.ack_delay as nat, 2);
    vstd::arithmetic::div_mod::lemma_small_mod(f.ack_delay as nat, pow256(2));
    crate::wire::lemma_subrange_nested(s, pos, tl, p2 + 8, p2 + 14);
    assert(t.subrange(p2 + 8, p2 + 14) =~= be_bytes(f.first_ack_block_length as nat, 6));
    lemma_be_val_be_bytes(f.first_ack_block_length as nat, 6);
    vstd::arithmetic::div_mod::lemma_small_mod(f.first_ack_block_length as nat, pow256(6));
    let p5 = p2 + 14;
    crate::wire::lemma_subrange_nested(s, pos, tl, p5, p5 + 7 * n);
    assert(t.subrange(p5, p5 + 7 * n) =~= ack_blocks_bytes(f.extra_ack_blocks));
    lemma_ack_blocks_round_trip(s, pos + p5, f.extra_ack_blocks);
    let p6 = p5 + 7 * n;
    match f.first_timestamp {
        Some(ft) => {
            lemma_be_bytes_len(ft.delta_timestamp as nat, 4);
            assert(s[pos + p6] == s.subrange(pos, pos + tl)[p6]);
            assert(t[p6] == ft.delta_la);
            crate::wire::lemma_subrange_nested(s, pos, tl, p6 + 1, p6 + 5);
            assert(t.subrange(p6 + 1, p6 + 5) =~= be_bytes(ft.delta_timestamp as nat, 4));
            lemma_be_val_be_bytes(ft.delta_timestamp as nat, 4);
            vstd::arithmetic::div_mod::lemma_small_mod(ft.delta_timestamp as nat, pow256(4));
            crate::wire::lemma_subrange_nested(s, pos, tl, p6 + 5, p6 + 5 + 3 * m);
            assert(t.subrange(p6 + 5, p6 + 5 + 3 * m) =~= extra_ts_bytes(f.extra_timestamps));
            lemma_extra_ts_round_trip(s, pos + p6 + 5, f.extra_timestamps);
            assert(tl == p6 + 5 + 3 * m);
        },
        None => {
            assert(f.extra_timestamps =~= Seq::<ExtraAckTimestamp>::empty());
            assert(tl == p6);
        },
    }
}

/// Appending one timestamp appends its three bytes.
proof fn lemma_extra_ts_bytes_snoc(ts: Seq<ExtraAckTimestamp>)
    requires
        ts.len() > 0,
    ensures
        extra_ts_bytes(ts) == extra_ts_bytes(ts.drop_last()) + seq![ts.last().delta_la] + be_bytes(
            ts.last().delta_timestamp as nat,
            2,
        ),
    decreases ts.len(),
{
    if ts.len() == 1 {
        assert(ts.drop_last() =~= Seq::<ExtraAckTimestamp>::empty());
        assert(ts.drop_first() =~= Seq::<ExtraAckTimestamp>::empty());
        assert(extra_ts_bytes(ts) =~= extra_ts_bytes(ts.drop_last()) + seq![ts.last().delta_la]
            + be_bytes(ts.last().delta_timestamp as nat, 2));
    } else {
        lemma_extra_ts_bytes_snoc(ts.drop_first());
        assert(ts.drop_first().drop_last() =~= ts.drop_last().drop_first());
        assert(ts.drop_first().last() == ts.last());
        assert(ts.drop_last()[0] == ts[0]);
        assert(ts.drop_last().len() > 0);
        assert(extra_ts_bytes(ts) =~= extra_ts_bytes(ts.drop_last()) + seq![ts.last().delta_la]
            + be_bytes(ts.last().delta_timestamp as nat, 2));
    }
}

} // verus!
