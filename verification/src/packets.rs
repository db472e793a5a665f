//! Packets: the unit sent in one UDP datagram. A one-byte flags header,
//! an optional eight-byte connection id, then a regular body (optional
//! version, truncated packet number, frame payload), a version
//! negotiation list, or a public reset.

use vstd::prelude::*;

use crate::endpoint_role::EndpointRole;
use crate::errors::Error;
use crate::frames::{frame_bytes, frame_valid, parse_frame, Frame, FrameView};
use crate::wire::{
    be_bytes, be_val, lemma_be_bytes_len, lemma_be_val_be_bytes, lemma_be_val_bound,
    lemma_pow256_values, pow256, push_be, read_be, valid_pns,
};
use crate::QUIC_VERSION;

verus! {

pub const FLAG_VERSION: u8 = 0x01;

pub const FLAG_PUBLIC_RESET: u8 = 0x02;

pub const FLAG_KEY_PHASE: u8 = 0x04;

pub const FLAG_CONNECTION_ID: u8 = 0x08;

pub const MASK_PACKET_NUMBER_SIZE: u8 = 0x30;

pub const FLAG_MULTIPATH: u8 = 0x40;

/// The frames carried by one regular packet.
#[derive(Clone, Debug, PartialEq, Eq)]
pub struct PacketPayload {
    pub frames: Vec<Frame>,
}

/// Mathematical image of a payload: the frame images in order.
pub open spec fn frames_view(v: Seq<Frame>) -> Seq<FrameView> {
    Seq::new(v.len(), |i: int| v[i]@)
}

impl View for PacketPayload {
    type V = Seq<FrameView>;

    open spec fn view(&self) -> Seq<FrameView> {
        frames_view(self.frames@)
    }
}

/// A payload must hold at least one frame, each valid in non-terminal
/// form (every frame is written with its explicit length field).
pub open spec fn payload_valid(fs: Seq<FrameView>, pns: int) -> bool {
    &&& fs.len() >= 1
    &&& forall|i: int| 0 <= i < fs.len() ==> frame_valid(#[trigger] fs[i], pns, false)
}

/// Wire image of a frame list.
pub open spec fn payload_bytes(fs: Seq<FrameView>, pns: int) -> Seq<u8>
    decreases fs.len(),
{
    if fs.len() == 0 {
        Seq::empty()
    } else {
        frame_bytes(fs[0], pns, false) + payload_bytes(fs.drop_first(), pns)
    }
}

/// Parse frames until the end of the buffer; an empty remainder at a
/// frame boundary ends the list.
pub open spec fn parse_frame_list(s: Seq<u8>, pos: int, pns: int) -> Result<Seq<FrameView>, Error>
    decreases s.len() - pos,
{
    if pos >= s.len() || pos < 0 {
        Ok(Seq::empty())
    } else {
        match parse_frame(s, pos, pns) {
            Ok((f, p)) => {
                if pos < p <= s.len() {
                    match parse_frame_list(s, p, pns) {
                        Ok(rest) => Ok(seq![f] + rest),
                        Err(e) => Err(e),
                    }
                } else {
                    Err(Error::Decoding)
                }
            },
            Err(e) => Err(e),
        }
    }
}

/// Parse a whole payload: at least one frame is required.
pub open spec fn parse_payload(s: Seq<u8>, pos: int, pns: int) -> Result<Seq<FrameView>, Error> {
    match parse_frame_list(s, pos, pns) {
        Ok(fs) => if fs.len() == 0 {
            Err(Error::Decoding)
        } else {
            Ok(fs)
        },
        Err(e) => Err(e),
    }
}

impl PacketPayload {
    /// Write every frame, each with its explicit length field.
    pub fn encode(&self, write: &mut Vec<u8>, packet_number_size: usize)
        requires
            valid_pns(packet_number_size as int),
            payload_valid(self@, packet_number_size as int),
        ensures
            final(write)@ == old(write)@ + payload_bytes(self@, packet_number_size as int),
    {
        let ghost pns = packet_number_size as int;
        let mut i: usize = 0;
        while i < self.frames.len()
            invariant
                i <= self.frames@.len(),
                valid_pns(pns),
                packet_number_size as int == pns,
                payload_valid(self@, pns),
                write@ == old(write)@ + payload_bytes(self@.subrange(0, i as int), pns),
            decreases self.frames@.len() - i,
        {
            proof {
                assert(self@[i as int] == self.frames@[i as int]@);
            }
            self.frames[i].encode(write, packet_number_size, false);
            proof {
                lemma_payload_bytes_snoc(self@.subrange(0, i + 1), pns);
                assert(self@.subrange(0, i + 1).drop_last() =~= self@.subrange(0, i as int));
                assert(write@ =~= old(write)@ + payload_bytes(self@.subrange(0, i + 1), pns));
            }
            i = i + 1;
        }
        proof {
            assert(self@.subrange(0, self.frames@.len() as int) =~= self@);
        }
    }

    /// Decode frames from `pos` to the end of the buffer.
    pub fn decode(bytes: &Vec<u8>, pos: usize, packet_number_size: usize) -> (r: Result<
        PacketPayload,
        Error,
    >)
        requires
            valid_pns(packet_number_size as int),
        ensures
            match (r, parse_payload(bytes@, pos as int, packet_number_size as int)) {
                (Ok(p), Ok(fs)) => p@ == fs,
                (Err(e), Err(se)) => e == se,
                _ => false,
            },
    {
        let ghost pns = packet_number_size as int;
        let mut frames: Vec<Frame> = Vec::new();
        let mut cur = pos;
        while cur < bytes.len()
            invariant
                valid_pns(pns),
                packet_number_size as int == pns,
                cur <= bytes@.len() || frames@.len() == 0,
                parse_frame_list(bytes@, pos as int, pns) == (match parse_frame_list(
                    bytes@,
                    cur as int,
                    pns,
                ) {
                    Ok(rest) => Ok::<Seq<FrameView>, Error>(frames_view(frames@) + rest),
                    Err(e) => Err::<Seq<FrameView>, Error>(e),
                }),
            decreases bytes@.len() - cur,
        {
            match Frame::decode(bytes, cur, packet_number_size) {
                Ok((f, p)) => {
                    proof {
                        crate::frames::lemma_parse_frame_progress(bytes@, cur as int, pns);
                        let rest_list = parse_frame_list(bytes@, p as int, pns);
                        assert(parse_frame_list(bytes@, cur as int, pns) == (match rest_list {
                            Ok(rest) => Ok::<Seq<FrameView>, Error>(seq![f@] + rest),
                            Err(e) => Err::<Seq<FrameView>, Error>(e),
                        }));
                        assert(frames_view(frames@.push(f)) =~= frames_view(frames@).push(f@));
                        if rest_list is Ok {
                            assert(frames_view(frames@).push(f@) + rest_list.unwrap()
                                =~= frames_view(frames@) + (seq![f@] + rest_list.unwrap()));
                        }
                    }
                    frames.push(f);
                    cur = p;
                },
                Err(e) => {
                    return Err(e);
                },
            }
        }
        proof {
            assert(parse_frame_list(bytes@, cur as int, pns) == Ok::<Seq<FrameView>, Error>(
                Seq::empty(),
            ));
            assert(frames_view(frames@) + Seq::<FrameView>::empty() =~= frames_view(frames@));
        }
        if frames.len() == 0 {
            return Err(Error::Decoding);
        }
        Ok(PacketPayload { frames })
    }
}

/// Appending one frame appends its bytes.
proof fn lemma_payload_bytes_snoc(fs: Seq<FrameView>, pns: int)
    requires
        fs.len() > 0,
    ensures
        payload_bytes(fs, pns) == payload_bytes(fs.drop_last(), pns) + frame_bytes(
            fs.last(),
            pns,
            false,
        ),
    decreases fs.len(),
{
    if fs.len() == 1 {
        assert(fs.drop_last() =~= Seq::<FrameView>::empty());
        assert(fs.drop_first() =~= Seq::<FrameView>::empty());
        assert(payload_bytes(fs, pns) =~= payload_bytes(fs.drop_last(), pns) + frame_bytes(
            fs.last(),
            pns,
            false,
        ));
    } else {
        lemma_payload_bytes_snoc(fs.drop_first(), pns);
        assert(fs.drop_first().drop_last() =~= fs.drop_last().drop_first());
        assert(fs.drop_first().last() == fs.last());
        assert(fs.drop_last()[0] == fs[0]);
        assert(fs.drop_last().len() > 0);
        assert(payload_bytes(fs, pns) =~= payload_bytes(fs.drop_last(), pns) + frame_bytes(
            fs.last(),
            pns,
            false,
        ));
    }
}

/// The per-frame conditions under which decoding inverts encoding.
pub open spec fn frames_round_trippable(fs: Seq<FrameView>) -> bool {
    forall|i: int|
        0 <= i < fs.len() ==> {
            &&& crate::frames::frame_fits(#[trigger] fs[i])
            &&& (fs[i] matches FrameView::ConnectionClose(f) ==> (f.reason_phrase matches Some(b)
                ==> b.len() >= 1))
            &&& (fs[i] matches FrameView::GoAway(f) ==> (f.reason_phrase matches Some(b)
                ==> b.len() >= 1))
        }
}

/// A frame list that fills the rest of the buffer parses back exactly.
pub proof fn lemma_frame_list_round_trip(s: Seq<u8>, pos: int, fs: Seq<FrameView>, pns: int)
    requires
        valid_pns(pns),
        forall|i: int| 0 <= i < fs.len() ==> frame_valid(#[trigger] fs[i], pns, false),
        frames_round_trippable(fs),
        0 <= pos,
        pos + payload_bytes(fs, pns).len() == s.len(),
        s.subrange(pos, s.len() as int) == payload_bytes(fs, pns),
    ensures
        parse_frame_list(s, pos, pns) == Ok::<Seq<FrameView>, Error>(fs),
    decreases fs.len(),
{
    if fs.len() == 0 {
        assert(fs =~= Seq::<FrameView>::empty());
    } else {
        let head = fs[0];
        let tail = fs.drop_first();
        let hb = frame_bytes(head, pns, false);
        let hl = hb.len() as int;
        let pb = payload_bytes(fs, pns);
        assert forall|i: int| 0 <= i < hl implies s.subrange(pos, pos + hl)[i] == hb[i] by {
            assert(s.subrange(pos, s.len() as int)[i] == s[pos + i]);
            assert(pb[i] == hb[i]);
        }
        assert(s.subrange(pos, pos + hl) =~= hb);
        crate::frames::lemma_frame_round_trip(s, pos, head, pns, false);
        crate::frames::lemma_parse_frame_progress(s, pos, pns);
        let p = pos + hl;
        assert forall|i: int| 0 <= i < payload_bytes(tail, pns).len() implies s.subrange(
            p,
            s.len() as int,
        )[i] == payload_bytes(tail, pns)[i] by {
            assert(s.subrange(pos, s.len() as int)[hl + i] == s[pos + hl + i]);
            assert(pb[hl + i] == payload_bytes(tail, pns)[i]);
        }
        assert(s.subrange(p, s.len() as int) =~= payload_bytes(tail, pns));
        lemma_frame_list_round_trip(s, p, tail, pns);
        assert(seq![head] + tail =~= fs);
    }
}

/// The fixed part of every packet: flags and optional connection id.
#[derive(Clone, Copy, Debug, PartialEq, Eq, Structural)]
pub struct PacketHeader {
    pub key_phase: bool,
    pub packet_number_size: usize,
    pub multipath: bool,
    pub connection_id: Option<u64>,
}

pub open spec fn header_valid(h: PacketHeader) -> bool {
    valid_pns(h.packet_number_size as int)
}

/// The two-bit code a packet-number size is written as.
pub open spec fn pns_code(n: int) -> int {
    if n == 1 {
        0
    } else if n == 2 {
        1
    } else if n == 4 {
        2
    } else {
        3
    }
}

/// The packet-number size a two-bit code declares.
pub open spec fn pns_of_code(c: int) -> int {
    if c == 0 {
        1
    } else if c == 1 {
        2
    } else if c == 2 {
        4
    } else {
        6
    }
}

/// The header flags byte.
pub open spec fn header_flags_byte(h: PacketHeader, have_version: bool, public_reset: bool) -> u8 {
    ((if have_version {
        1int
    } else {
        0int
    }) + (if public_reset {
        2int
    } else {
        0int
    }) + (if h.key_phase {
        4int
    } else {
        0int
    }) + (if h.connection_id is Some {
        8int
    } else {
        0int
    }) + pns_code(h.packet_number_size as int) * 16 + (if h.multipath {
        64int
    } else {
        0int
    })) as u8
}

/// Wire image of the header: the flags byte, then the connection id if
/// present.
pub open spec fn header_bytes(h: PacketHeader, have_version: bool, public_reset: bool) -> Seq<u8> {
    seq![header_flags_byte(h, have_version, public_reset)] + (match h.connection_id {
        Some(id) => be_bytes(id as nat, 8),
        None => Seq::empty(),
    })
}

#[derive(Clone, Debug, PartialEq, Eq)]
pub struct RegularPacket {
    pub header: PacketHeader,
    pub version: Option<u32>,
    pub packet_number: u64,
    pub payload: PacketPayload,
}

/// Mathematical image of a regular packet.
pub struct RegularPacketView {
    pub header: PacketHeader,
    pub version: Option<u32>,
    pub packet_number: u64,
    pub payload: Seq<FrameView>,
}

impl View for RegularPacket {
    type V = RegularPacketView;

    open spec fn view(&self) -> RegularPacketView {
        RegularPacketView {
            header: self.header,
            version: self.version,
            packet_number: self.packet_number,
            payload: self.payload@,
        }
    }
}

#[derive(Clone, Debug, PartialEq, Eq)]
pub struct VersionNegotiationPacket {
    pub header: PacketHeader,
    pub versions: Vec<u32>,
}

/// Mathematical image of a version negotiation packet.
pub struct VersionNegotiationPacketView {
    pub header: PacketHeader,
    pub versions: Seq<u32>,
}

impl View for VersionNegotiationPacket {
    type V = VersionNegotiationPacketView;

    open spec fn view(&self) -> VersionNegotiationPacketView {
        VersionNegotiationPacketView { header: self.header, versions: self.versions@ }
    }
}

#[derive(Clone, Copy, Debug, PartialEq, Eq, Structural)]
pub struct PublicResetPacket {
    pub header: PacketHeader,
}

impl View for PublicResetPacket {
    type V = PublicResetPacket;

    open spec fn view(&self) -> PublicResetPacket {
        *self
    }
}

#[derive(Clone, Debug, PartialEq, Eq)]
pub enum Packet {
    Regular(RegularPacket),
    VersionNegotiation(VersionNegotiationPacket),
    PublicReset(PublicResetPacket),
}

/// Mathematical image of a packet.
pub enum PacketView {
    Regular(RegularPacketView),
    VersionNegotiation(VersionNegotiationPacketView),
    PublicReset(PublicResetPacket),
}

impl View for Packet {
    type V = PacketView;

    open spec fn view(&self) -> PacketView {
        match self {
            Packet::Regular(p) => PacketView::Regular(p@),
            Packet::VersionNegotiation(p) => PacketView::VersionNegotiation(p@),
            Packet::PublicReset(p) => PacketView::PublicReset(*p),
        }
    }
}

pub open spec fn packet_valid(v: PacketView) -> bool {
    match v {
        PacketView::Regular(p) => header_valid(p.header) && payload_valid(
            p.payload,
            p.header.packet_number_size as int,
        ),
        PacketView::VersionNegotiation(p) => header_valid(p.header),
        PacketView::PublicReset(p) => header_valid(p.header),
    }
}

/// Wire image of a version list: four bytes each.
pub open spec fn versions_bytes(vs: Seq<u32>) -> Seq<u8>
    decreases vs.len(),
{
    if vs.len() == 0 {
        Seq::empty()
    } else {
        be_bytes(vs[0] as nat, 4) + versions_bytes(vs.drop_first())
    }
}

/// Wire image of a whole packet.
pub open spec fn packet_bytes(v: PacketView) -> Seq<u8> {
    match v {
        PacketView::Regular(p) => header_bytes(p.header, p.version is Some, false) + (match p
            .version {
            Some(ver) => be_bytes(ver as nat, 4),
            None => Seq::empty(),
        }) + be_bytes(p.packet_number as nat, p.header.packet_number_size as nat) + payload_bytes(
            p.payload,
            p.header.packet_number_size as int,
        ),
        PacketView::VersionNegotiation(p) => header_bytes(p.header, true, false) + versions_bytes(
            p.versions,
        ),
        PacketView::PublicReset(p) => header_bytes(p.header, false, true),
    }
}

/// Version values read four bytes at a time until fewer than four bytes
/// remain; a trailing fragment is ignored.
pub open spec fn parse_versions(s: Seq<u8>, pos: int) -> Seq<u32>
    decreases s.len() - pos,
{
    if pos < 0 || pos + 4 > s.len() {
        Seq::empty()
    } else {
        seq![be_val(s.subrange(pos, pos + 4)) as u32] + parse_versions(s, pos + 4)
    }
}

/// Parse a whole datagram as one packet, using the local role to read a
/// version-bearing packet as regular (server) or as a version
/// negotiation (client).
pub open spec fn parse_packet(s: Seq<u8>, role: EndpointRole) -> Result<PacketView, Error> {
    if s.len() < 1 {
        Err(Error::Decoding)
    } else {
        let fl = s[0] as int;
        let has_version = fl % 2 == 1;
        let public_reset = (fl / 2) % 2 == 1;
        let key_phase = (fl / 4) % 2 == 1;
        let has_cid = (fl / 8) % 2 == 1;
        let pns = pns_of_code((fl / 16) % 4);
        let multipath = (fl / 64) % 2 == 1;
        if has_cid && 9 > s.len() {
            Err(Error::Decoding)
        } else {
            let connection_id: Option<u64> = if has_cid {
                Some(be_val(s.subrange(1, 9)) as u64)
            } else {
                None
            };
            let p0: int = if has_cid {
                9
            } else {
                1
            };
            let header = PacketHeader {
                key_phase,
                packet_number_size: pns as usize,
                multipath,
                connection_id,
            };
            if public_reset {
                Ok(PacketView::PublicReset(PublicResetPacket { header }))
            } else if !has_version || role == EndpointRole::Server {
                if has_version && p0 + 4 > s.len() {
                    Err(Error::Decoding)
                } else {
                    let ver = be_val(s.subrange(p0, p0 + 4)) as u32;
                    if has_version && ver != QUIC_VERSION {
                        Err(Error::UnsupportedVersion(ver))
                    } else {
                        let version: Option<u32> = if has_version {
                            Some(ver)
                        } else {
                            None
                        };
                        let p1: int = if has_version {
                            p0 + 4
                        } else {
                            p0
                        };
                        if p1 + pns > s.len() {
                            Err(Error::Decoding)
                        } else {
                            let packet_number = be_val(s.subrange(p1, p1 + pns)) as u64;
                            match parse_payload(s, p1 + pns, pns) {
                                Ok(fs) => Ok(
                                    PacketView::Regular(
                                        RegularPacketView {
                                            header,
                                            version,
                                            packet_number,
                                            payload: fs,
                                        },
                                    ),
                                ),
                                Err(e) => Err(e),
                            }
                        }
                    }
                }
            } else {
                Ok(
                    PacketView::VersionNegotiation(
                        VersionNegotiationPacketView {
                            header,
                            versions: parse_versions(s, p0),
                        },
                    ),
                )
            }
        }
    }
}

fn encode_header(write: &mut Vec<u8>, header: &PacketHeader, have_version: bool, public_reset: bool)
    requires
        header_valid(*header),
    ensures
        final(write)@ == old(write)@ + header_bytes(*header, have_version, public_reset),
{
    let mut flags: u8 = 0;
    if have_version {
        flags = flags + 1;
    }
    if public_reset {
        flags = flags + 2;
    }
    if header.key_phase {
        flags = flags + 4;
    }
    if header.connection_id.is_some() {
        flags = flags + 8;
    }
    let size_code: u8 = if header.packet_number_size == 1 {
        0
    } else if header.packet_number_size == 2 {
        1
    } else if header.packet_number_size == 4 {
        2
    } else {
        3
    };
    flags = flags + size_code * 16;
    if header.multipath {
        flags = flags + 64;
    }
    write.push(flags);
    match &header.connection_id {
        Some(connection_id) => {
            push_be(write, *connection_id, 8);
        },
        None => {},
    }
    proof {
        assert(write@ =~= old(write)@ + header_bytes(*header, have_version, public_reset));
    }
}

impl Packet {
    /// Write this packet as one datagram body.
    pub fn encode(&self, write: &mut Vec<u8>)
        requires
            packet_valid(self@),
        ensures
            final(write)@ == old(write)@ + packet_bytes(self@),
    {
        match self {
            Packet::Regular(regular_packet) => {
                encode_header(
                    write,
                    &regular_packet.header,
                    regular_packet.version.is_some(),
                    false,
                );
                match &regular_packet.version {
                    Some(version) => {
                        push_be(write, *version as u64, 4);
                    },
                    None => {},
                }
                let packet_number_size = regular_packet.header.packet_number_size;
                push_be(write, regular_packet.packet_number, packet_number_size);
                regular_packet.payload.encode(write, packet_number_size);
                proof {
                    assert(write@ =~= old(write)@ + packet_bytes(self@));
                }
            },
            Packet::VersionNegotiation(version_packet) => {
                encode_header(write, &version_packet.header, true, false);
                let ghost mid = write@;
                let mut i: usize = 0;
                while i < version_packet.versions.len()
                    invariant
                        i <= version_packet.versions@.len(),
                        write@ == mid + versions_bytes(version_packet.versions@.subrange(
                            0,
                            i as int,
                        )),
                    decreases version_packet.versions@.len() - i,
                {
                    push_be(write, version_packet.versions[i] as u64, 4);
                    proof {
                        lemma_versions_bytes_snoc(version_packet.versions@.subrange(0, i + 1));
                        assert(version_packet.versions@.subrange(0, i + 1).drop_last()
                            =~= version_packet.versions@.subrange(0, i as int));
                        assert(write@ =~= mid + versions_bytes(
                            version_packet.versions@.subrange(0, i + 1),
                        ));
                    }
                    i = i + 1;
                }
                proof {
                    assert(version_packet.versions@.subrange(
                        0,
                        version_packet.versions@.len() as int,
                    ) =~= version_packet.versions@);
                    assert(write@ =~= old(write)@ + packet_bytes(self@));
                }
            },
            Packet::PublicReset(public_reset_packet) => {
                encode_header(write, &public_reset_packet.header, false, true);
                proof {
                    assert(write@ =~= old(write)@ + packet_bytes(self@));
                }
            },
        }
    }

    /// Decode a whole datagram as one packet.
    pub fn decode(bytes: &Vec<u8>, endpoint_role: EndpointRole) -> (r: Result<Packet, Error>)
        ensures
            match (r, parse_packet(bytes@, endpoint_role)) {
                (Ok(p), Ok(v)) => p@ == v,
                (Err(e), Err(se)) => e == se,
                _ => false,
            },
    {
        if bytes.len() < 1 {
            return Err(Error::Decoding);
        }
        let flags = bytes[0];
        let has_version = flags % 2 == 1;
        let public_reset = (flags / 2) % 2 == 1;
        let key_phase = (flags / 4) % 2 == 1;
        let has_connection_id = (flags / 8) % 2 == 1;
        let size_code = (flags / 16) % 4;
        let packet_number_size: usize = if size_code == 0 {
            1
        } else if size_code == 1 {
            2
        } else if size_code == 2 {
            4
        } else {
            6
        };
        let multipath = (flags / 64) % 2 == 1;
        let (connection_id, p0): (Option<u64>, usize) = if has_connection_id {
            match read_be(bytes, 1, 8) {
                Ok((id, p)) => (Some(id), p),
                Err(e) => {
                    return Err(e);
                },
            }
        } else {
            (None, 1)
        };
        let header = PacketHeader { key_phase, packet_number_size, multipath, connection_id };
        if public_reset {
            return Ok(Packet::PublicReset(PublicResetPacket { header }));
        }
        if !has_version || matches!(endpoint_role, EndpointRole::Server) {
            let (version, p1): (Option<u32>, usize) = if has_version {
                match read_be(bytes, p0, 4) {
                    Ok((v, p)) => {
                        proof {
                            lemma_be_val_bound(bytes@.subrange(p0 as int, p0 + 4));
                            lemma_pow256_values();
                        }
                        if v as u32 != QUIC_VERSION {
                            return Err(Error::UnsupportedVersion(v as u32));
                        }
                        (Some(v as u32), p)
                    },
                    Err(e) => {
                        return Err(e);
                    },
                }
            } else {
                (None, p0)
            };
            let (packet_number, p2) = match read_be(bytes, p1, packet_number_size) {
                Ok(p) => p,
                Err(e) => {
                    return Err(e);
                },
            };
            let payload = match PacketPayload::decode(bytes, p2, packet_number_size) {
                Ok(p) => p,
                Err(e) => {
                    return Err(e);
                },
            };
            Ok(Packet::Regular(RegularPacket { header, version, packet_number, payload }))
        } else {
            let mut versions: Vec<u32> = Vec::new();
            let mut cur = p0;
            while cur < bytes.len() && bytes.len() - cur >= 4
                invariant
                    parse_versions(bytes@, p0 as int) == versions@ + parse_versions(
                        bytes@,
                        cur as int,
                    ),
                    cur <= bytes@.len() || versions@.len() == 0,
                decreases bytes@.len() - cur,
            {
                match read_be(bytes, cur, 4) {
                    Ok((v, p)) => {
                        proof {
                            lemma_be_val_bound(bytes@.subrange(cur as int, cur + 4));
                            lemma_pow256_values();
                            let head = be_val(bytes@.subrange(cur as int, cur + 4)) as u32;
                            assert(versions@.push(head) + parse_versions(bytes@, cur + 4)
                                =~= versions@ + (seq![head] + parse_versions(bytes@, cur + 4)));
                        }
                        versions.push(v as u32);
                        cur = p;
                    },
                    Err(e) => {
                        proof {
                            assert(false);
                        }
                        return Err(e);
                    },
                }
            }
            proof {
                assert(parse_versions(bytes@, cur as int) =~= Seq::<u32>::empty());
                assert(versions@ + Seq::<u32>::empty() =~= versions@);
            }
            Ok(
                Packet::VersionNegotiation(
                    VersionNegotiationPacket { header, versions },
                ),
            )
        }
    }
}

/// The version list is four bytes per entry.
pub proof fn lemma_versions_bytes_len(vs: Seq<u32>)
    ensures
        versions_bytes(vs).len() == 4 * vs.len(),
    decreases vs.len(),
{
    if vs.len() > 0 {
        lemma_be_bytes_len(vs[0] as nat, 4);
        lemma_versions_bytes_len(vs.drop_first());
    }
}

/// A version list that fills the rest of the buffer parses back exactly.
proof fn lemma_versions_round_trip(s: Seq<u8>, pos: int, vs: Seq<u32>)
    requires
        0 <= pos,
        pos + 4 * vs.len() == s.len(),
        s.subrange(pos, s.len() as int) == versions_bytes(vs),
    ensures
        parse_versions(s, pos) == vs,
    decreases vs.len(),
{
    lemma_versions_bytes_len(vs);
    if vs.len() == 0 {
        assert(vs =~= Seq::<u32>::empty());
    } else {
        let tail = vs.drop_first();
        let vb = versions_bytes(vs);
        lemma_be_bytes_len(vs[0] as nat, 4);
        lemma_versions_bytes_len(tail);
        assert forall|i: int| 0 <= i < 4 implies s.subrange(pos, pos + 4)[i] == be_bytes(
            vs[0] as nat,
            4,
        )[i] by {
            assert(s.subrange(pos, s.len() as int)[i] == s[pos + i]);
            assert(vb[i] == be_bytes(vs[0] as nat, 4)[i]);
        }
        assert(s.subrange(pos, pos + 4) =~= be_bytes(vs[0] as nat, 4));
        lemma_be_val_be_bytes(vs[0] as nat, 4);
        lemma_pow256_values();
        vstd::arithmetic::div_mod::lemma_small_mod(vs[0] as nat, pow256(4));
        assert forall|i: int| 0 <= i < 4 * tail.len() implies s.subrange(
            pos + 4,
            s.len() as int,
        )[i] == versions_bytes(tail)[i] by {
            assert(s.subrange(pos, s.len() as int)[4 + i] == s[pos + 4 + i]);
            assert(vb[4 + i] == versions_bytes(tail)[i]);
        }
        assert(s.subrange(pos + 4, s.len() as int) =~= versions_bytes(tail));
        lemma_versions_round_trip(s, pos + 4, tail);
        assert(seq![vs[0]] + tail =~= vs);
    }
}

/// The header flags byte stores each field in its own bits, so each one
/// is recovered by the decoder's arithmetic.
proof fn lemma_flags_byte_fields(h: PacketHeader, have_version: bool, public_reset: bool)
    requires
        header_valid(h),
    ensures
        ({
            let fl = header_flags_byte(h, have_version, public_reset) as int;
            &&& (fl % 2 == 1) == have_version
            &&& ((fl / 2) % 2 == 1) == public_reset
            &&& ((fl / 4) % 2 == 1) == h.key_phase
            &&& ((fl / 8) % 2 == 1) == (h.connection_id is Some)
            &&& pns_of_code((fl / 16) % 4) == h.packet_number_size as int
            &&& ((fl / 64) % 2 == 1) == h.multipath
        }),
{
    let a: int = if have_version {
        1
    } else {
        0
    };
    let b: int = if public_reset {
        1
    } else {
        0
    };
    let c: int = if h.key_phase {
        1
    } else {
        0
    };
    let d: int = if h.connection_id is Some {
        1
    } else {
        0
    };
    let k = pns_code(h.packet_number_size as int);
    let m: int = if h.multipath {
        1
    } else {
        0
    };
    let fl = header_flags_byte(h, have_version, public_reset) as int;
    assert(fl == a + 2 * b + 4 * c + 8 * d + 16 * k + 64 * m);
    let t1 = b + 2 * c + 4 * d + 8 * k + 32 * m;
    let t2 = c + 2 * d + 4 * k + 16 * m;
    let t3 = d + 2 * k + 8 * m;
    let t4 = k + 4 * m;
    vstd::arithmetic::div_mod::lemma_fundamental_div_mod_converse(fl, 2, t1, a);
    vstd::arithmetic::div_mod::lemma_fundamental_div_mod_converse(t1, 2, t2, b);
    vstd::arithmetic::div_mod::lemma_fundamental_div_mod_converse(t2, 2, t3, c);
    vstd::arithmetic::div_mod::lemma_fundamental_div_mod_converse(t3, 2, t4, d);
    vstd::arithmetic::div_mod::lemma_fundamental_div_mod_converse(t4, 4, m, k);
    vstd::arithmetic::div_mod::lemma_div_denominator(fl, 2, 2);
    assert(fl / 4 == t2);
    vstd::arithmetic::div_mod::lemma_div_denominator(fl, 4, 2);
    assert(fl / 8 == t3);
    vstd::arithmetic::div_mod::lemma_div_denominator(fl, 8, 2);
    assert(fl / 16 == t4);
    vstd::arithmetic::div_mod::lemma_div_denominator(fl, 16, 4);
    assert(fl / 64 == m);
    vstd::arithmetic::div_mod::lemma_small_mod(m as nat, 2);
}

/// A packet decodes back from its own encoding when read with the role
/// its form is meant for.
#[verifier::rlimit(100)]
pub proof fn lemma_packet_round_trip(v: PacketView, role: EndpointRole)
    requires
        packet_valid(v),
        v matches PacketView::Regular(p) ==> {
            &&& (p.packet_number as nat) < pow256(p.header.packet_number_size as nat)
            &&& (p.version matches Some(ver) ==> ver == QUIC_VERSION && role
                == EndpointRole::Server)
            &&& frames_round_trippable(p.payload)
        },
        v matches PacketView::VersionNegotiation(p) ==> role == EndpointRole::Client,
    ensures
        parse_packet(packet_bytes(v), role) == Ok::<PacketView, Error>(v),
{
    let s = packet_bytes(v);
    match v {
        PacketView::Regular(p) => {
            let h = p.header;
            let pns = h.packet_number_size as int;
            let fl = header_flags_byte(h, p.version is Some, false);
            lemma_flags_byte_fields(h, p.version is Some, false);
            let cb: Seq<u8> = match h.connection_id {
                Some(id) => be_bytes(id as nat, 8),
                None => Seq::empty(),
            };
            let vb: Seq<u8> = match p.version {
                Some(ver) => be_bytes(ver as nat, 4),
                None => Seq::empty(),
            };
            let pb = be_bytes(p.packet_number as nat, pns as nat);
            let db = payload_bytes(p.payload, pns);
            if h.connection_id is Some {
                lemma_be_bytes_len(h.connection_id.unwrap() as nat, 8);
            }
            if p.version is Some {
                lemma_be_bytes_len(p.version.unwrap() as nat, 4);
            }
            lemma_be_bytes_len(p.packet_number as nat, pns as nat);
            lemma_pow256_values();
            assert(s == seq![fl] + cb + vb + pb + db);
            assert(s[0] == fl);
            let p0: int = (1 + cb.len()) as int;
            match h.connection_id {
                Some(id) => {
                    assert(s.subrange(1, 9) == cb) by {
                        assert(s =~= seq![fl] + cb + (vb + pb + db));
                        crate::wire::lemma_slice_of_concat(s, seq![fl], cb, vb + pb + db);
                    }
                    lemma_be_val_be_bytes(id as nat, 8);
                    vstd::arithmetic::div_mod::lemma_small_mod(id as nat, pow256(8));
                },
                None => {},
            }
            match p.version {
                Some(ver) => {
                    assert(s.subrange(p0, p0 + 4) == vb) by {
                        assert(s =~= (seq![fl] + cb) + vb + (pb + db));
                        crate::wire::lemma_slice_of_concat(s, seq![fl] + cb, vb, pb + db);
                    }
                    lemma_be_val_be_bytes(ver as nat, 4);
                    vstd::arithmetic::div_mod::lemma_small_mod(ver as nat, pow256(4));
                },
                None => {},
            }
            let p1: int = p0 + vb.len();
            assert(s.subrange(p1, p1 + pns) == pb) by {
                assert(s =~= (seq![fl] + cb + vb) + pb + db);
                crate::wire::lemma_slice_of_concat(s, seq![fl] + cb + vb, pb, db);
            }
            lemma_be_val_be_bytes(p.packet_number as nat, pns as nat);
            vstd::arithmetic::div_mod::lemma_small_mod(p.packet_number as nat, pow256(pns as nat));
            assert(s.subrange(p1 + pns, s.len() as int) == db) by {
                assert(s =~= (seq![fl] + cb + vb + pb) + db + Seq::<u8>::empty());
                crate::wire::lemma_slice_of_concat(s, seq![fl] + cb + vb + pb, db, Seq::empty());
                assert(s.subrange(p1 + pns, s.len() as int) =~= s.subrange(
                    (seq![fl] + cb + vb + pb).len() as int,
                    ((seq![fl] + cb + vb + pb).len() + db.len()) as int,
                ));
            }
            lemma_frame_list_round_trip(s, p1 + pns, p.payload, pns);
        },
        PacketView::VersionNegotiation(p) => {
            let h = p.header;
            let fl = header_flags_byte(h, true, false);
            lemma_flags_byte_fields(h, true, false);
            let cb: Seq<u8> = match h.connection_id {
                Some(id) => be_bytes(id as nat, 8),
                None => Seq::empty(),
            };
            let wb = versions_bytes(p.versions);
            if h.connection_id is Some {
                lemma_be_bytes_len(h.connection_id.unwrap() as nat, 8);
            }
            lemma_versions_bytes_len(p.versions);
            lemma_pow256_values();
            assert(s == seq![fl] + cb + wb);
            assert(s[0] == fl);
            let p0: int = (1 + cb.len()) as int;
            match h.connection_id {
                Some(id) => {
                    assert(s.subrange(1, 9) == cb) by {
                        assert(s =~= seq![fl] + cb + wb);
                        crate::wire::lemma_slice_of_concat(s, seq![fl], cb, wb);
                    }
                    lemma_be_val_be_bytes(id as nat, 8);
                    vstd::arithmetic::div_mod::lemma_small_mod(id as nat, pow256(8));
                },
                None => {},
            }
            assert(s.subrange(p0, s.len() as int) == wb) by {
                assert(s =~= (seq![fl] + cb) + wb + Seq::<u8>::empty());
                crate::wire::lemma_slice_of_concat(s, seq![fl] + cb, wb, Seq::empty());
                assert(s.subrange(p0, s.len() as int) =~= s.subrange(p0, p0 + wb.len() as int));
            }
            lemma_versions_round_trip(s, p0, p.versions);
        },
        PacketView::PublicReset(p) => {
            let h = p.header;
            let fl = header_flags_byte(h, false, true);
            lemma_flags_byte_fields(h, false, true);
            let cb: Seq<u8> = match h.connection_id {
                Some(id) => be_bytes(id as nat, 8),
                None => Seq::empty(),
            };
            if h.connection_id is Some {
                lemma_be_bytes_len(h.connection_id.unwrap() as nat, 8);
            }
            lemma_pow256_values();
            assert(s == seq![fl] + cb);
            assert(s[0] == fl);
            match h.connection_id {
                Some(id) => {
                    assert(s.subrange(1, 9) == cb) by {
                        assert(s =~= seq![fl] + cb + Seq::<u8>::empty());
                        crate::wire::lemma_slice_of_concat(s, seq![fl], cb, Seq::empty());
                    }
                    lemma_be_val_be_bytes(id as nat, 8);
                    vstd::arithmetic::div_mod::lemma_small_mod(id as nat, pow256(8));
                },
                None => {},
            }
        },
    }
}

/// Appending one version appends its four bytes.
proof fn lemma_versions_bytes_snoc(vs: Seq<u32>)
    requires
        vs.len() > 0,
    ensures
        versions_bytes(vs) == versions_bytes(vs.drop_last()) + be_bytes(vs.last() as nat, 4),
    decreases vs.len(),
{
    if vs.len() == 1 {
        assert(vs.drop_last() =~= Seq::<u32>::empty());
        assert(vs.drop_first() =~= Seq::<u32>::empty());
        assert(versions_bytes(vs) =~= versions_bytes(vs.drop_last()) + be_bytes(
            vs.last() as nat,
            4,
        ));
    } else {
        lemma_versions_bytes_snoc(vs.drop_first());
        assert(vs.drop_first().drop_last() =~= vs.drop_last().drop_first());
        assert(vs.drop_first().last() == vs.last());
        assert(vs.drop_last()[0] == vs[0]);
        assert(vs.drop_last().len() > 0);
        assert(versions_bytes(vs) =~= versions_bytes(vs.drop_last()) + be_bytes(
            vs.last() as nat,
            4,
        ));
    }
}

} // verus!
