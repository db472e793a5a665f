use vstd::prelude::*;

use crate::errors::Error;
use crate::wire::{
    be_bytes, be_val, decode_result_matches, lemma_be_bytes_len, lemma_be_val_be_bytes,
    lemma_pow256_values, pow256, push_be, push_bytes, read_be, read_bytes,
};

verus! {

pub const FLAG_STREAM: u8 = 0x80;
pub const FLAG_FIN: u8 = 0x40;
pub const FLAG_DATA_LENGTH_PRESENT: u8 = 0x20;

#[derive(Clone, Debug, Default, PartialEq, Eq)]
pub struct StreamFrame {
    pub stream_id: u32,
    pub offset: u64,
    pub stream_data: Vec<u8>,
    pub fin: bool,
}

/// Mathematical image of a stream frame.
pub struct StreamFrameView {
    pub stream_id: u32,
    pub offset: u64,
    pub stream_data: Seq<u8>,
    pub fin: bool,
}

impl View for StreamFrame {
    type V = StreamFrameView;

    open spec fn view(&self) -> StreamFrameView {
        StreamFrameView {
            stream_id: self.stream_id,
            offset: self.offset,
            stream_data: self.stream_data@,
            fin: self.fin,
        }
    }
}

/// A stream frame must carry data or the fin marker; with an explicit
/// length field the data must fit the two-byte length.
pub open spec fn stream_valid(f: StreamFrameView, last_frame: bool) -> bool {
    &&& f.stream_data.len() > 0 || f.fin
    &&& !last_frame ==> f.stream_data.len() <= 0xFFFF
}

/// The type octet: stream flag set, fin and length-present bits as given,
/// and the full-width encodings selected for offset (eight bytes) and
/// stream id (four bytes).
pub open spec fn stream_type_byte(fin: bool, last_frame: bool) -> u8 {
    if fin {
        if last_frame {
            0xDF
        } else {
            0xFF
        }
    } else {
        if last_frame {
            0x9F
        } else {
            0xBF
        }
    }
}

/// Wire image: the type octet, the data length when this is not the last
/// frame of its packet, a four-byte stream id, an eight-byte offset, and
/// the data bytes.
pub open spec fn stream_bytes(f: StreamFrameView, last_frame: bool) -> Seq<u8> {
    seq![stream_type_byte(f.fin, last_frame)] + (if !last_frame {
        be_bytes(f.stream_data.len(), 2)
    } else {
        Seq::empty()
    }) + be_bytes(f.stream_id as nat, 4) + be_bytes(f.offset as nat, 8) + f.stream_data
}

/// The width of the offset field declared by an offset-size code.
pub open spec fn offset_size_of(code: int) -> int {
    if code == 0 {
        0
    } else {
        code + 1
    }
}

pub open spec fn parse_stream(s: Seq<u8>, pos: int) -> Result<(StreamFrameView, int), Error> {
    if pos >= s.len() {
        Err(Error::UnexpectedEof)
    } else {
        let t = s[pos] as int;
        let fin = (t / 64) % 2 == 1;
        let last_frame = (t / 32) % 2 == 0;
        let osize = offset_size_of((t / 4) % 8);
        let ssize = t % 4 + 1;
        let p0 = pos + 1;
        if !last_frame && p0 + 2 > s.len() {
            Err(Error::Decoding)
        } else {
            let dlen = if !last_frame {
                be_val(s.subrange(p0, p0 + 2)) as int
            } else {
                0
            };
            let p1 = if !last_frame {
                p0 + 2
            } else {
                p0
            };
            if p1 + ssize > s.len() {
                Err(Error::Decoding)
            } else {
                let stream_id = be_val(s.subrange(p1, p1 + ssize)) as u32;
                let p2 = p1 + ssize;
                if p2 + osize > s.len() {
                    Err(Error::Decoding)
                } else {
                    let offset = if osize == 0 {
                        0u64
                    } else {
                        be_val(s.subrange(p2, p2 + osize)) as u64
                    };
                    let p3 = p2 + osize;
                    if !last_frame && p3 + dlen > s.len() {
                        Err(Error::Decoding)
                    } else {
                        let end = if !last_frame {
                            p3 + dlen
                        } else {
                            s.len() as int
                        };
                        let data = s.subrange(p3, end);
                        if data.len() == 0 && !fin {
                            Err(Error::Decoding)
                        } else {
                            Ok((StreamFrameView { stream_id, offset, stream_data: data, fin }, end))
                        }
                    }
                }
            }
        }
    }
}

impl StreamFrame {
    pub fn encode(&self, out: &mut Vec<u8>, last_frame: bool)
        requires
            stream_valid(self@, last_frame),
        ensures
            final(out)@ == old(out)@ + stream_bytes(self@, last_frame),
    {
        let frame_type: u8 = if self.fin {
            if last_frame {
                0xDF
            } else {
                0xFF
            }
        } else {
            if last_frame {
                0x9F
            } else {
                0xBF
            }
        };
        out.push(frame_type);
        if !last_frame {
            push_be(out, self.stream_data.len() as u64, 2);
        }
        push_be(out, self.stream_id as u64, 4);
        push_be(out, self.offset, 8);
        push_bytes(out, &self.stream_data);
        proof {
            assert(out@ =~= old(out)@ + stream_bytes(self@, last_frame));
        }
    }

    pub fn decode(bytes: &Vec<u8>, pos: usize) -> (r: Result<(StreamFrame, usize), Error>)
        requires
            pos < bytes@.len() ==> bytes@[pos as int] >= 0x80,
        ensures
            decode_result_matches(r, parse_stream(bytes@, pos as int)),
    {
        if pos >= bytes.len() {
            return Err(Error::UnexpectedEof);
        }
        let t = bytes[pos];
        let fin = (t / 64) % 2 == 1;
        let last_frame = (t / 32) % 2 == 0;
        let offset_code = (t / 4) % 8;
        let osize: usize = if offset_code == 0 {
            0
        } else {
            (offset_code + 1) as usize
        };
        let ssize: usize = (t % 4 + 1) as usize;
        let p0 = pos + 1;
        let (dlen, p1): (usize, usize) = if !last_frame {
            match read_be(bytes, p0, 2) {
                Ok((v, p)) => {
                    proof {
                        crate::wire::lemma_be_val_bound(bytes@.subrange(p0 as int, p0 + 2));
                        lemma_pow256_values();
                    }
                    (v as usize, p)
                },
                Err(e) => {
                    return Err(e);
                },
            }
        } else {
            (0, p0)
        };
        let (stream_id, p2) = match read_be(bytes, p1, ssize) {
            Ok((v, p)) => {
                proof {
                    crate::wire::lemma_be_val_bound(bytes@.subrange(p1 as int, p1 + ssize as int));
                    crate::wire::lemma_pow256_monotonic(ssize as nat, 4);
                    lemma_pow256_values();
                }
                (v as u32, p)
            },
            Err(e) => {
                return Err(e);
            },
        };
        let (offset, p3) = if osize != 0 {
            match read_be(bytes, p2, osize) {
                Ok((v, p)) => (v, p),
                Err(e) => {
                    return Err(e);
                },
            }
        } else {
            (0u64, p2)
        };
        let (stream_data, end) = if !last_frame {
            match read_bytes(bytes, p3, dlen) {
                Ok(p) => p,
                Err(e) => {
                    return Err(e);
                },
            }
        } else {
            match read_bytes(bytes, p3, bytes.len() - p3) {
                Ok(p) => p,
                Err(e) => {
                    return Err(e);
                },
            }
        };
        if stream_data.len() == 0 && !fin {
            return Err(Error::Decoding);
        }
        Ok((StreamFrame { stream_id, offset, stream_data, fin }, end))
    }
}

/// A stream frame decodes back from its own encoding: with a length field
/// wherever it sits, and as the terminal frame when its bytes end the
/// buffer.
pub proof fn lemma_stream_round_trip(s: Seq<u8>, pos: int, f: StreamFrameView, last_frame: bool)
    requires
        stream_valid(f, last_frame),
        0 <= pos,
        pos + stream_bytes(f, last_frame).len() <= s.len(),
        s.subrange(pos, pos + stream_bytes(f, last_frame).len()) == stream_bytes(f, last_frame),
        last_frame ==> pos + stream_bytes(f, last_frame).len() == s.len(),
    ensures
        parse_stream(s, pos) == Ok::<_, Error>((f, pos + stream_bytes(f, last_frame).len())),
{
    let t = stream_bytes(f, last_frame);
    let tl = t.len() as int;
    let dl: int = if !last_frame {
        2
    } else {
        0
    };
    lemma_be_bytes_len(f.stream_data.len(), 2);
    lemma_be_bytes_len(f.stream_id as nat, 4);
    lemma_be_bytes_len(f.offset as nat, 8);
    lemma_pow256_values();
    assert(s[pos] == s.subrange(pos, pos + tl)[0]);
    if !last_frame {
        crate::wire::lemma_subrange_nested(s, pos, tl, 1, 3);
        assert(t.subrange(1, 3) =~= be_bytes(f.stream_data.len(), 2));
        lemma_be_val_be_bytes(f.stream_data.len(), 2);
        vstd::arithmetic::div_mod::lemma_small_mod(f.stream_data.len(), pow256(2));
    }
    crate::wire::lemma_subrange_nested(s, pos, tl, 1 + dl, 1 + dl + 4);
    assert(t.subrange(1 + dl, 1 + dl + 4) =~= be_bytes(f.stream_id as nat, 4));
    lemma_be_val_be_bytes(f.stream_id as nat, 4);
    vstd::arithmetic::div_mod::lemma_small_mod(f.stream_id as nat, pow256(4));
    crate::wire::lemma_subrange_nested(s, pos, tl, 5 + dl, 13 + dl);
    assert(t.subrange(5 + dl, 13 + dl) =~= be_bytes(f.offset as nat, 8));
    lemma_be_val_be_bytes(f.offset as nat, 8);
    vstd::arithmetic::div_mod::lemma_small_mod(f.offset as nat, pow256(8));
    crate::wire::lemma_subrange_nested(s, pos, tl, 13 + dl, 13 + dl + f.stream_data.len() as int);
    assert(t.subrange(13 + dl, 13 + dl + f.stream_data.len() as int) =~= f.stream_data);
}

} // verus!
