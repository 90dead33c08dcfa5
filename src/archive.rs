//! One resolution layer: a ring of fixed-size slots inside the file image.
use vstd::arithmetic::div_mod::{
    lemma_fundamental_div_mod, lemma_fundamental_div_mod_converse, lemma_mod_pos_bound,
};
use vstd::prelude::*;

use crate::codec::{be_u32, read_u32};
use crate::point::{point_at, point_bytes, splice12, Point, POINT_SIZE};

verus! {

/// Bytes of one archive descriptor: offset, seconds per point, points.
pub const ARCHIVE_INFO_SIZE: usize = 12;

/// A slot position inside an archive, in `0..points`.
#[derive(Debug, Clone, Copy, PartialEq, Eq, Structural)]
pub struct ArchiveIndex(pub u32);

/// A timestamp rounded down to a multiple of an archive's precision.
#[derive(Debug, Clone, Copy, PartialEq, Eq, Structural)]
pub struct BucketName(pub u32);

/// `t` rounded down to a multiple of `precision`.
pub open spec fn bucket_of(t: int, precision: int) -> int {
    t - t % precision
}

/// The slot that holds `bucket` in a ring of `n` slots, `precision` seconds
/// apart, whose slot 0 holds `anchor`; an anchor of zero means an empty ring.
pub open spec fn ring_index(anchor: int, bucket: int, precision: int, n: int) -> int {
    if anchor == 0 {
        0
    } else {
        ((bucket - anchor) / precision) % n
    }
}

/// The position `k` steps after slot `start`, going round a ring of `n`.
pub open spec fn ring_step(start: int, k: int, n: int) -> int {
    (start + k) % n
}

/// A bucket is a multiple of the precision, at most one period below `t`.
pub proof fn lemma_bucket(t: u32, precision: u32)
    requires
        precision > 0,
    ensures
        bucket_of(t as int, precision as int) % (precision as int) == 0,
        0 <= t - bucket_of(t as int, precision as int) < precision,
        0 <= bucket_of(t as int, precision as int) <= t,
{
    lemma_fundamental_div_mod(t as int, precision as int);
    lemma_mod_pos_bound(t as int, precision as int);
    let q = t as int / precision as int;
    assert(bucket_of(t as int, precision as int) == precision as int * q);
    assert(q >= 0);
    assert(precision as int * q >= 0) by (nonlinear_arith)
        requires
            q >= 0,
            precision > 0,
    ;
    assert(precision as int * q == q * precision as int) by (nonlinear_arith);
    lemma_fundamental_div_mod_converse(precision as int * q, precision as int, q, 0);
}

proof fn lemma_floor_div_negative(d: int, p: int)
    requires
        d > 0,
        p > 0,
    ensures
        (-d) / p == -((d - 1) / p + 1),
{
    let q = (d - 1) / p;
    let r = (d - 1) % p;
    lemma_fundamental_div_mod(d - 1, p);
    lemma_mod_pos_bound(d - 1, p);
    assert(-d == (-(q + 1)) * p + (p - 1 - r)) by (nonlinear_arith)
        requires
            d - 1 == p * q + r,
    ;
    lemma_fundamental_div_mod_converse(-d, p, -(q + 1), p - 1 - r);
}

proof fn lemma_mod_negative(c: int, n: int)
    requires
        c >= 0,
        n > 0,
    ensures
        (-c) % n == (n - c % n) % n,
{
    let q = c / n;
    let r = c % n;
    lemma_fundamental_div_mod(c, n);
    lemma_mod_pos_bound(c, n);
    if r == 0 {
        assert(-c == (-q) * n + 0) by (nonlinear_arith)
            requires
                c == n * q + r,
                r == 0,
        ;
        lemma_fundamental_div_mod_converse(-c, n, -q, 0);
        lemma_fundamental_div_mod_converse(n, n, 1, 0);
    } else {
        assert(-c == (-q - 1) * n + (n - r)) by (nonlinear_arith)
            requires
                c == n * q + r,
        ;
        lemma_fundamental_div_mod_converse(-c, n, -q - 1, n - r);
        lemma_fundamental_div_mod_converse(n - r, n, 0, n - r);
    }
}

proof fn lemma_ring_step(start: int, k: int, n: int)
    requires
        0 <= start < n,
        0 <= k <= n,
    ensures
        start + k < n ==> ring_step(start, k, n) == start + k,
        start + k >= n ==> ring_step(start, k, n) == start + k - n,
{
    if start + k < n {
        lemma_fundamental_div_mod_converse(start + k, n, 0, start + k);
    } else {
        lemma_fundamental_div_mod_converse(start + k, n, 1, start + k - n);
    }
}

/// Writing `(t, v)` and then reading the slot of `t`'s bucket gives back that
/// bucket and exactly the bits of `v`; the write does not move the slot.
pub proof fn lemma_write_then_read(a: Archive, data: Seq<u8>, t: u32, v: u64)
    requires
        a.wf(data.len() as int),
    ensures
        a.written(data, t as int, v).len() == data.len(),
        a.index_for(a.written(data, t as int, v), a.spec_bucket(t as int)) == a.index_for(
            data,
            a.spec_bucket(t as int),
        ),
        a.slot(a.written(data, t as int, v), a.index_for(data, a.spec_bucket(t as int))) == Point(
            a.spec_bucket(t as int) as u32,
            v,
        ),
{
    let b = a.spec_bucket(t as int);
    lemma_bucket(t, a.seconds_per_point);
    let i = a.index_for(data, b);
    vstd::arithmetic::div_mod::lemma_mod_bound((b - a.anchor(data)) / a.seconds_per_point as int, a.points as int);
    assert(0 <= i < a.points);
    let pos = a.slot_pos(i);
    assert(0 <= i * POINT_SIZE <= (a.points - 1) * POINT_SIZE) by (nonlinear_arith)
        requires
            0 <= i < a.points,
    ;
    let d2 = a.written(data, t as int, v);
    crate::point::lemma_point_round_trip(data, pos, b as u32, v);
    let off = a.offset as int;
    if i == 0 {
        assert(d2.subrange(off, off + 4) =~= point_bytes(b as u32, v).subrange(0, 4));
        crate::codec::lemma_u32_round_trip(b as u32);
        assert(point_bytes(b as u32, v).subrange(0, 4) =~= crate::codec::u32_bytes(b as u32));
        assert(a.anchor(d2) == b);
        if b != 0 {
            assert((b - b) / a.seconds_per_point as int == 0);
        }
    } else {
        assert(d2.subrange(off, off + 4) =~= data.subrange(off, off + 4));
    }
}

/// A write changes no byte outside the archive's own slots: the header and
/// the other archives stay as they were.
pub proof fn lemma_write_stays_inside(a: Archive, data: Seq<u8>, t: u32, v: u64, i: int)
    requires
        a.wf(data.len() as int),
        0 <= i < data.len(),
        i < a.offset || a.offset + a.points * POINT_SIZE <= i,
    ensures
        a.written(data, t as int, v)[i] == data[i],
{
    let b = a.spec_bucket(t as int);
    let k = a.index_for(data, b);
    vstd::arithmetic::div_mod::lemma_mod_bound((b - a.anchor(data)) / a.seconds_per_point as int, a.points as int);
    assert(0 <= k * POINT_SIZE <= (a.points - 1) * POINT_SIZE) by (nonlinear_arith)
        requires
            0 <= k < a.points,
    ;
    crate::codec::lemma_u32_round_trip(b as u32);
    crate::codec::lemma_u64_round_trip(v);
    crate::point::lemma_splice12_outside(data, a.slot_pos(k), point_bytes(b as u32, v), i);
}

/// A view of `points` slots of `seconds_per_point` seconds each, stored at
/// byte `offset` of the file image.
#[derive(Debug, Clone, Copy)]
pub struct Archive {
    pub seconds_per_point: u32,
    pub points: usize,
    pub offset: usize,
}

impl Archive {
    /// Seconds covered by the whole ring.
    pub open spec fn spec_retention(&self) -> int {
        self.seconds_per_point * self.points
    }

    /// The archive has a positive precision and size, and fits in `len` bytes.
    pub open spec fn wf(&self, len: int) -> bool {
        &&& self.seconds_per_point > 0
        &&& 0 < self.points <= u32::MAX
        &&& self.offset + self.points * POINT_SIZE <= len
    }

    /// Byte position of slot `i`.
    pub open spec fn slot_pos(&self, i: int) -> int {
        self.offset + i * POINT_SIZE
    }

    /// The point stored in slot `i`.
    pub open spec fn slot(&self, data: Seq<u8>, i: int) -> Point {
        point_at(data, self.slot_pos(i))
    }

    /// The timestamp held by slot 0, zero when the ring is empty.
    pub open spec fn anchor(&self, data: Seq<u8>) -> int {
        be_u32(data.subrange(self.offset as int, self.offset + 4))
    }

    pub open spec fn spec_bucket(&self, t: int) -> int {
        bucket_of(t, self.seconds_per_point as int)
    }

    /// The slot that a timestamp in bucket `bucket` maps to.
    pub open spec fn index_for(&self, data: Seq<u8>, bucket: int) -> int {
        ring_index(self.anchor(data), bucket, self.seconds_per_point as int, self.points as int)
    }

    /// The bytes after storing `(bucket(t), v)` in the slot of `t`'s bucket.
    pub open spec fn written(&self, data: Seq<u8>, t: int, v: u64) -> Seq<u8> {
        let b = self.spec_bucket(t);
        splice12(data, self.slot_pos(self.index_for(data, b)), point_bytes(b as u32, v))
    }

    pub fn new(seconds_per_point: u32, points: usize, offset: usize) -> (r: Archive)
        ensures
            r == (Archive { seconds_per_point, points, offset }),
    {
        Archive { seconds_per_point, points, offset }
    }

    pub fn seconds_per_point(&self) -> (r: u32)
        ensures
            r == self.seconds_per_point,
    {
        self.seconds_per_point
    }

    pub fn points(&self) -> (r: usize)
        ensures
            r == self.points,
    {
        self.points
    }

    /// Byte position of slot 0 in the file image.
    pub fn offset(&self) -> (r: usize)
        ensures
            r == self.offset,
    {
        self.offset
    }

    /// Bytes taken by the ring.
    pub fn size(&self) -> (r: usize)
        requires
            self.points * POINT_SIZE <= usize::MAX,
        ensures
            r == self.points * POINT_SIZE,
    {
        self.points * POINT_SIZE
    }

    /// Seconds covered by the ring.
    pub fn retention(&self) -> (r: u64)
        requires
            self.points <= u32::MAX,
        ensures
            r == self.spec_retention(),
    {
        assert(self.seconds_per_point * self.points <= u32::MAX * u32::MAX) by (nonlinear_arith)
            requires
                self.points <= u32::MAX,
        ;
        self.seconds_per_point as u64 * self.points as u64
    }

    /// `timestamp` rounded down to this archive's precision.
    pub fn bucket(&self, timestamp: u32) -> (r: BucketName)
        requires
            self.seconds_per_point > 0,
        ensures
            r.0 == self.spec_bucket(timestamp as int),
    {
        proof {
            lemma_bucket(timestamp, self.seconds_per_point);
        }
        BucketName(timestamp - timestamp % self.seconds_per_point)
    }

    /// The timestamp stored in slot 0.
    pub fn anchor_bucket_name(&self, data: &[u8]) -> (r: BucketName)
        requires
            self.wf(data@.len() as int),
        ensures
            r.0 == self.anchor(data@),
    {
        BucketName(read_u32(data, self.offset))
    }

    /// The slot for `bucket_name`: its distance in points from the anchor,
    /// taken round the ring, so that it lies in `0..points` also for
    /// buckets older than the anchor.
    pub fn archive_index(&self, data: &[u8], bucket_name: &BucketName) -> (r: ArchiveIndex)
        requires
            self.wf(data@.len() as int),
        ensures
            r.0 == self.index_for(data@, bucket_name.0 as int),
            0 <= r.0 < self.points,
    {
        let anchor = self.anchor_bucket_name(data);
        if anchor.0 == 0 {
            return ArchiveIndex(0);
        }
        let p = self.seconds_per_point as u64;
        let n = self.points as u64;
        let b = bucket_name.0 as u64;
        let a = anchor.0 as u64;
        let idx: u64 = if b >= a {
            ((b - a) / p) % n
        } else {
            let c = (a - b - 1) / p + 1;
            proof {
                lemma_floor_div_negative(a - b, p as int);
                lemma_mod_negative(c as int, n as int);
            }
            (n - c % n) % n
        };
        ArchiveIndex(idx as u32)
    }

    /// Stores `(bucket(point.0), point.1)` in the slot of that bucket.
    pub fn write(&self, data: &mut [u8], point: &Point)
        requires
            self.wf(old(data)@.len() as int),
        ensures
            final(data)@ == self.written(old(data)@, point.0 as int, point.1),
    {
        let bucket_name = self.bucket(point.0);
        let archive_index = self.archive_index(data, &bucket_name);
        let _n = data.len();
        assert(archive_index.0 * POINT_SIZE <= (self.points - 1) * POINT_SIZE) by (nonlinear_arith)
            requires
                archive_index.0 < self.points,
        ;
        let start = self.offset + archive_index.0 as usize * POINT_SIZE;
        point.write_to_slice(bucket_name, data, start);
    }

    /// The `count` points stored from the slot of `from` onwards, going
    /// round the ring past its last slot.
    pub fn read_points(&self, data: &[u8], from: &BucketName, count: usize) -> (r: Vec<Point>)
        requires
            self.wf(data@.len() as int),
            count <= self.points,
        ensures
            r@.len() == count,
            forall|k: int|
                0 <= k < count ==> #[trigger] r@[k] == self.slot(
                    data@,
                    ring_step(self.index_for(data@, from.0 as int), k, self.points as int),
                ),
    {
        let start = self.archive_index(data, from).0 as usize;
        let _n = data.len();
        let mut r: Vec<Point> = Vec::new();
        let mut k: usize = 0;
        let mut i: usize = start;
        proof {
            lemma_ring_step(start as int, 0, self.points as int);
        }
        while k < count
            invariant
                self.wf(data@.len() as int),
                data@.len() <= usize::MAX,
                count <= self.points,
                start == self.index_for(data@, from.0 as int),
                start < self.points,
                k <= count,
                i < self.points,
                i == ring_step(start as int, k as int, self.points as int),
                r@.len() == k,
                forall|j: int|
                    0 <= j < k ==> #[trigger] r@[j] == self.slot(
                        data@,
                        ring_step(start as int, j, self.points as int),
                    ),
            decreases count - k,
        {
            assert(i * POINT_SIZE <= (self.points - 1) * POINT_SIZE) by (nonlinear_arith)
                requires
                    i < self.points,
            ;
            let pt = Point::new_from_slice(data, self.offset + i * POINT_SIZE);
            r.push(pt);
            proof {
                lemma_ring_step(start as int, k as int, self.points as int);
                lemma_ring_step(start as int, k + 1, self.points as int);
            }
            i = if i + 1 == self.points {
                0
            } else {
                i + 1
            };
            k = k + 1;
        }
        r
    }
}

} // verus!
