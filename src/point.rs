//! The 12-byte record stored in every archive slot.
use vstd::prelude::*;

use crate::archive::BucketName;
use crate::codec::{
    be_u32, be_u64, lemma_u32_round_trip, lemma_u64_round_trip, read_u32, read_u64, u32_bytes,
    u64_bytes, write_u32, write_u64,
};

verus! {

/// Bytes taken by one stored point: a timestamp and a value.
pub const POINT_SIZE: usize = 12;

/// A sample: seconds since the epoch, and the IEEE-754 bit pattern of its
/// value. A timestamp of zero marks an empty slot.
#[derive(Debug, Clone, Copy, PartialEq, Eq, Structural)]
pub struct Point(pub u32, pub u64);

/// The point held by the 12 bytes at `pos`.
pub open spec fn point_at(data: Seq<u8>, pos: int) -> Point {
    Point(
        be_u32(data.subrange(pos, pos + 4)) as u32,
        be_u64(data.subrange(pos + 4, pos + 12)) as u64,
    )
}

/// The 12 bytes that store timestamp `ts` with value bits `v`.
pub open spec fn point_bytes(ts: u32, v: u64) -> Seq<u8> {
    u32_bytes(ts) + u64_bytes(v)
}

/// `data` with the 12 bytes at `pos` replaced by `bytes`.
pub open spec fn splice12(data: Seq<u8>, pos: int, bytes: Seq<u8>) -> Seq<u8> {
    data.subrange(0, pos) + bytes + data.subrange(pos + 12, data.len() as int)
}

/// A stored record reads back as exactly the timestamp and bits written.
pub proof fn lemma_point_round_trip(data: Seq<u8>, pos: int, ts: u32, v: u64)
    requires
        0 <= pos,
        pos + 12 <= data.len(),
    ensures
        splice12(data, pos, point_bytes(ts, v)).len() == data.len(),
        point_at(splice12(data, pos, point_bytes(ts, v)), pos) == Point(ts, v),
{
    lemma_u32_round_trip(ts);
    lemma_u64_round_trip(v);
    let d = splice12(data, pos, point_bytes(ts, v));
    assert(d.subrange(pos, pos + 4) =~= u32_bytes(ts));
    assert(d.subrange(pos + 4, pos + 12) =~= u64_bytes(v));
}

/// Writing 12 bytes at `pos` leaves every byte outside them unchanged.
pub proof fn lemma_splice12_outside(data: Seq<u8>, pos: int, bytes: Seq<u8>, i: int)
    requires
        0 <= pos,
        pos + 12 <= data.len(),
        bytes.len() == 12,
        0 <= i < data.len(),
        i < pos || pos + 12 <= i,
    ensures
        splice12(data, pos, bytes)[i] == data[i],
{
}

impl Point {
    /// Decodes the point stored at byte `pos` of `slice`.
    pub fn new_from_slice(slice: &[u8], pos: usize) -> (r: Point)
        requires
            pos + POINT_SIZE <= slice@.len(),
        ensures
            r == point_at(slice@, pos as int),
    {
        let _n = slice.len();
        let ts = read_u32(slice, pos);
        let val = read_u64(slice, pos + 4);
        Point(ts, val)
    }

    /// Stores this point's value under `bucket_name` at byte `pos` of `slice`.
    pub fn write_to_slice(&self, bucket_name: BucketName, slice: &mut [u8], pos: usize)
        requires
            pos + POINT_SIZE <= old(slice)@.len(),
        ensures
            final(slice)@ == splice12(old(slice)@, pos as int, point_bytes(bucket_name.0, self.1)),
    {
        let _n = slice.len();
        write_u32(slice, pos, bucket_name.0);
        write_u64(slice, pos + 4, self.1);
        assert(slice@ =~= splice12(old(slice)@, pos as int, point_bytes(bucket_name.0, self.1)));
    }
}

} // verus!
