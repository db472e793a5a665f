//! Big-endian integer fields: the byte-level building blocks of the wire
//! format, with spec-level encodings and the round-trip lemmas the frame
//! and packet codecs build on.

use vstd::prelude::*;

use crate::errors::Error;

verus! {

/// 256^n, the number of values an `n`-byte field can carry.
pub open spec fn pow256(n: nat) -> nat
    decreases n,
{
    if n == 0 {
        1
    } else {
        256 * pow256((n - 1) as nat)
    }
}

/// The `n` low-order bytes of `v`, most significant first.
pub open spec fn be_bytes(v: nat, n: nat) -> Seq<u8>
    decreases n,
{
    if n == 0 {
        Seq::empty()
    } else {
        be_bytes(v / 256, (n - 1) as nat).push((v % 256) as u8)
    }
}

/// The value of a big-endian byte sequence.
pub open spec fn be_val(s: Seq<u8>) -> nat
    decreases s.len(),
{
    if s.len() == 0 {
        0
    } else {
        (be_val(s.drop_last()) * 256 + s.last()) as nat
    }
}

pub proof fn lemma_be_bytes_len(v: nat, n: nat)
    ensures
        be_bytes(v, n).len() == n,
    decreases n,
{
    if n > 0 {
        lemma_be_bytes_len(v / 256, (n - 1) as nat);
    }
}

pub proof fn lemma_be_val_bound(s: Seq<u8>)
    ensures
        be_val(s) < pow256(s.len()),
    decreases s.len(),
{
    if s.len() > 0 {
        lemma_be_val_bound(s.drop_last());
        assert(be_val(s.drop_last()) * 256 + s.last() < 256 * pow256((s.len() - 1) as nat))
            by (nonlinear_arith)
            requires
                be_val(s.drop_last()) < pow256((s.len() - 1) as nat),
                s.last() < 256,
        ;
    }
}

/// Reading back the bytes of `v` yields `v` truncated to `n` bytes.
pub proof fn lemma_be_val_be_bytes(v: nat, n: nat)
    ensures
        be_val(be_bytes(v, n)) == v % pow256(n),
    decreases n,
{
    if n == 0 {
        assert(v % 1 == 0) by (nonlinear_arith);
    } else {
        let m = (n - 1) as nat;
        lemma_be_bytes_len(v / 256, m);
        let s = be_bytes(v, n);
        assert(s.drop_last() =~= be_bytes(v / 256, m));
        lemma_be_val_be_bytes(v / 256, m);
        let p = pow256(m);
        lemma_pow256_pos(m);
        vstd::arithmetic::div_mod::lemma_mod_breakdown(v as int, 256, p as int);
        assert(256 * ((v as int / 256) % (p as int)) == ((v / 256) % p) * 256);
    }
}

pub proof fn lemma_pow256_pos(n: nat)
    ensures
        pow256(n) > 0,
    decreases n,
{
    if n > 0 {
        lemma_pow256_pos((n - 1) as nat);
    }
}

/// The eight powers of 256 a u64 field can use.
pub proof fn lemma_pow256_values()
    ensures
        pow256(0) == 1,
        pow256(1) == 0x100,
        pow256(2) == 0x10000,
        pow256(3) == 0x1000000,
        pow256(4) == 0x100000000,
        pow256(5) == 0x10000000000,
        pow256(6) == 0x1000000000000,
        pow256(7) == 0x100000000000000,
        pow256(8) == 0x10000000000000000,
{
    reveal_with_fuel(pow256, 9);
}

/// Zero out all but the `byte_count` least significant bytes of `number`,
/// as done before writing a truncated packet-number field.
pub fn truncate_u64(number: u64, byte_count: usize) -> (r: u64)
    requires
        byte_count < 8,
    ensures
        r as nat == number as nat % pow256(byte_count as nat),
{
    let modulus: u64 = if byte_count == 0 {
        1
    } else if byte_count == 1 {
        0x100
    } else if byte_count == 2 {
        0x10000
    } else if byte_count == 3 {
        0x1000000
    } else if byte_count == 4 {
        0x100000000
    } else if byte_count == 5 {
        0x10000000000
    } else if byte_count == 6 {
        0x1000000000000
    } else {
        0x100000000000000
    };
    proof {
        lemma_pow256_values();
    }
    number % modulus
}

/// Append the low `n` bytes of `v`, most significant first.
pub fn push_be(out: &mut Vec<u8>, v: u64, n: usize)
    requires
        n <= 8,
    ensures
        final(out)@ == old(out)@ + be_bytes(v as nat, n as nat),
    decreases n,
{
    if n == 0 {
        assert(out@ =~= old(out)@ + be_bytes(v as nat, 0));
    } else {
        push_be(out, v / 256, n - 1);
        out.push((v % 256) as u8);
        assert(out@ =~= old(out)@ + be_bytes(v as nat, n as nat));
    }
}

/// Read an `n`-byte big-endian unsigned field at `pos`; a short read is a
/// `Decoding` error (truncation inside a field).
pub fn read_be(bytes: &Vec<u8>, pos: usize, n: usize) -> (r: Result<(u64, usize), Error>)
    requires
        n <= 8,
    ensures
        pos + n <= bytes@.len() ==> (r matches Ok(p) && p.0 as nat == be_val(
            bytes@.subrange(pos as int, pos + n as int),
        ) && p.1 == pos + n),
        pos + n > bytes@.len() ==> r == Err::<(u64, usize), Error>(Error::Decoding),
{
    if pos >= bytes.len() || n > bytes.len() - pos {
        if n == 0 && pos == bytes.len() {
            proof {
                assert(bytes@.subrange(pos as int, pos as int) =~= Seq::<u8>::empty());
            }
            return Ok((0, pos));
        }
        return Err(Error::Decoding);
    }
    let end: usize = pos + n;
    let ghost full = bytes@.subrange(pos as int, pos + n as int);
    let mut v: u64 = 0;
    let mut i: usize = 0;
    while i < n
        invariant
            i <= n,
            n <= 8,
            pos + n <= bytes@.len(),
            pos + n <= usize::MAX,
            full == bytes@.subrange(pos as int, pos + n as int),
            v as nat == be_val(full.subrange(0, i as int)),
            (v as nat) < pow256(i as nat),
        decreases n - i,
    {
        proof {
            lemma_pow256_values();
            lemma_pow256_monotonic(i as nat, 7);
            let cur = full.subrange(0, i as int);
            let next = full.subrange(0, i + 1 as int);
            assert(next.drop_last() =~= cur);
            assert(next.last() == full[i as int]);
        }
        v = v * 256 + (bytes[pos + i] as u64);
        i = i + 1;
    }
    proof {
        assert(full.subrange(0, n as int) =~= full);
        lemma_be_val_bound(full);
        assert(full.len() == n);
    }
    Ok((v, end))
}

/// Append a copy of `data` to `out`.
pub fn push_bytes(out: &mut Vec<u8>, data: &Vec<u8>)
    ensures
        final(out)@ == old(out)@ + data@,
{
    let mut i: usize = 0;
    while i < data.len()
        invariant
            i <= data@.len(),
            out@ == old(out)@ + data@.subrange(0, i as int),
        decreases data@.len() - i,
    {
        proof {
            assert(data@.subrange(0, i + 1) =~= data@.subrange(0, i as int).push(data@[i as int]));
        }
        out.push(data[i]);
        proof {
            assert(out@ =~= old(out)@ + data@.subrange(0, i + 1));
        }
        i = i + 1;
    }
    proof {
        assert(data@.subrange(0, data@.len() as int) =~= data@);
    }
}

/// Read `n` raw bytes at `pos`; a short read is a `Decoding` error.
pub fn read_bytes(bytes: &Vec<u8>, pos: usize, n: usize) -> (r: Result<(Vec<u8>, usize), Error>)
    ensures
        pos + n <= bytes@.len() ==> (r matches Ok(p) && p.0@ == bytes@.subrange(
            pos as int,
            pos + n as int,
        ) && p.1 == pos + n),
        pos + n > bytes@.len() ==> r == Err::<(Vec<u8>, usize), Error>(Error::Decoding),
{
    if pos > bytes.len() || n > bytes.len() - pos {
        return Err(Error::Decoding);
    }
    let mut v: Vec<u8> = Vec::new();
    let mut i: usize = 0;
    while i < n
        invariant
            i <= n,
            pos + n <= bytes@.len(),
            pos + n <= usize::MAX,
            v@ == bytes@.subrange(pos as int, pos + i as int),
        decreases n - i,
    {
        proof {
            assert(bytes@.subrange(pos as int, pos + i + 1) =~= bytes@.subrange(
                pos as int,
                pos + i as int,
            ).push(bytes@[pos + i]));
        }
        v.push(bytes[pos + i]);
        i = i + 1;
    }
    Ok((v, pos + n))
}

/// A slice taken inside a window of `s` equals the matching slice of the
/// window.
pub proof fn lemma_subrange_nested(s: Seq<u8>, pos: int, len: int, a: int, b: int)
    requires
        0 <= pos,
        pos + len <= s.len(),
        0 <= a <= b <= len,
    ensures
        s.subrange(pos + a, pos + b) == s.subrange(pos, pos + len).subrange(a, b),
{
    assert(s.subrange(pos + a, pos + b) =~= s.subrange(pos, pos + len).subrange(a, b));
}

/// The slice of a concatenation that covers exactly the middle part.
pub proof fn lemma_slice_of_concat(s: Seq<u8>, pre: Seq<u8>, mid: Seq<u8>, post: Seq<u8>)
    requires
        s == pre + mid + post,
    ensures
        s.subrange(pre.len() as int, (pre.len() + mid.len()) as int) == mid,
{
    assert(s.subrange(pre.len() as int, (pre.len() + mid.len()) as int) =~= mid);
}

/// A decoder's runtime result agrees with the spec-level parse of the
/// same bytes: same success or failure, same value, same new position.
pub open spec fn decode_result_matches<T: View>(
    r: Result<(T, usize), Error>,
    s: Result<(T::V, int), Error>,
) -> bool {
    match (r, s) {
        (Ok((v, p)), Ok((sv, sp))) => v@ == sv && p as int == sp,
        (Err(e), Err(se)) => e == se,
        _ => false,
    }
}

/// The packet-number sizes the header flags can declare.
pub open spec fn valid_pns(n: int) -> bool {
    n == 1 || n == 2 || n == 4 || n == 6
}

/// Guard for a packet-number size configured by the caller; sizes outside
/// the wire format's set are a programming error, not a decodable state.
pub fn check_packet_number_size(packet_number_size: usize)
    requires
        valid_pns(packet_number_size as int),
{
}

pub proof fn lemma_pow256_monotonic(a: nat, b: nat)
    ensures
        a <= b ==> pow256(a) <= pow256(b),
    decreases b,
{
    if b > 0 && a <= b {
        if a == b {
        } else {
            lemma_pow256_monotonic(a, (b - 1) as nat);
            lemma_pow256_pos((b - 1) as nat);
        }
    }
}

} // verus!
