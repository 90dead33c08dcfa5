//! Big-endian encoding of the fixed-width integers stored in a file.
use vstd::prelude::*;

verus! {

/// The value of four bytes read most significant first.
pub open spec fn be_u32(b: Seq<u8>) -> int {
    b[0] as int * 0x1000000 + b[1] as int * 0x10000 + b[2] as int * 0x100 + b[3] as int
}

/// The value of eight bytes read most significant first.
pub open spec fn be_u64(b: Seq<u8>) -> int {
    be_u32(b.subrange(0, 4)) * 0x100000000 + be_u32(b.subrange(4, 8))
}

/// The four bytes of `v`, most significant first.
pub open spec fn u32_bytes(v: u32) -> Seq<u8> {
    seq![(v / 0x1000000) as u8, ((v / 0x10000) % 0x100) as u8, ((v / 0x100) % 0x100) as u8, (v % 0x100) as u8]
}

/// The eight bytes of `v`, most significant first.
pub open spec fn u64_bytes(v: u64) -> Seq<u8> {
    u32_bytes((v / 0x100000000) as u32) + u32_bytes((v % 0x100000000) as u32)
}

pub proof fn lemma_u32_round_trip(v: u32)
    ensures
        u32_bytes(v).len() == 4,
        be_u32(u32_bytes(v)) == v,
{
}

pub proof fn lemma_u64_round_trip(v: u64)
    ensures
        u64_bytes(v).len() == 8,
        be_u64(u64_bytes(v)) == v,
{
    let hi = (v / 0x100000000) as u32;
    let lo = (v % 0x100000000) as u32;
    lemma_u32_round_trip(hi);
    lemma_u32_round_trip(lo);
    assert(u64_bytes(v).subrange(0, 4) =~= u32_bytes(hi));
    assert(u64_bytes(v).subrange(4, 8) =~= u32_bytes(lo));
}

/// Reads the big-endian `u32` at `pos`.
pub fn read_u32(data: &[u8], pos: usize) -> (r: u32)
    requires
        pos + 4 <= data@.len(),
    ensures
        r == be_u32(data@.subrange(pos as int, pos + 4)),
{
    let r = (data[pos] as u32) * 0x1000000 + (data[pos + 1] as u32) * 0x10000
        + (data[pos + 2] as u32) * 0x100 + (data[pos + 3] as u32);
    r
}

/// Reads the big-endian `u64` at `pos`.
pub fn read_u64(data: &[u8], pos: usize) -> (r: u64)
    requires
        pos + 8 <= data@.len(),
    ensures
        r == be_u64(data@.subrange(pos as int, pos + 8)),
{
    let _n = data.len();
    let hi = read_u32(data, pos);
    let lo = read_u32(data, pos + 4);
    proof {
        let s = data@.subrange(pos as int, pos + 8);
        assert(s.subrange(0, 4) =~= data@.subrange(pos as int, pos + 4));
        assert(s.subrange(4, 8) =~= data@.subrange(pos + 4, pos + 8));
    }
    (hi as u64) * 0x100000000 + (lo as u64)
}

/// Writes `v` big-endian at `pos`, leaving every other byte as it was.
pub fn write_u32(data: &mut [u8], pos: usize, v: u32)
    requires
        pos + 4 <= old(data)@.len(),
    ensures
        final(data)@ == old(data)@.subrange(0, pos as int) + u32_bytes(v) + old(data)@.subrange(
            pos + 4,
            old(data)@.len() as int,
        ),
{
    data[pos] = (v / 0x1000000) as u8;
    data[pos + 1] = ((v / 0x10000) % 0x100) as u8;
    data[pos + 2] = ((v / 0x100) % 0x100) as u8;
    data[pos + 3] = (v % 0x100) as u8;
    assert(data@ =~= old(data)@.subrange(0, pos as int) + u32_bytes(v) + old(data)@.subrange(
        pos + 4,
        old(data)@.len() as int,
    ));
}

/// Writes `v` big-endian at `pos`, leaving every other byte as it was.
pub fn write_u64(data: &mut [u8], pos: usize, v: u64)
    requires
        pos + 8 <= old(data)@.len(),
    ensures
        final(data)@ == old(data)@.subrange(0, pos as int) + u64_bytes(v) + old(data)@.subrange(
            pos + 8,
            old(data)@.len() as int,
        ),
{
    let _n = data.len();
    write_u32(data, pos, (v / 0x100000000) as u32);
    write_u32(data, pos + 4, (v % 0x100000000) as u32);
    assert(data@ =~= old(data)@.subrange(0, pos as int) + u64_bytes(v) + old(data)@.subrange(
        pos + 8,
        old(data)@.len() as int,
    ));
}

/// Appends the four big-endian bytes of `v`.
pub fn push_u32(out: &mut Vec<u8>, v: u32)
    ensures
        final(out)@ == old(out)@ + u32_bytes(v),
{
    out.push((v / 0x1000000) as u8);
    out.push(((v / 0x10000) % 0x100) as u8);
    out.push(((v / 0x100) % 0x100) as u8);
    out.push((v % 0x100) as u8);
    assert(out@ =~= old(out)@ + u32_bytes(v));
}

} // verus!
