//! A file image seen through its header: creating the image of a new file,
//! reading the layout of an existing one, and the write that cascades from
//! the finest archive to coarser ones.
use vstd::prelude::*;

use crate::archive::{ring_step, Archive};
use crate::codec::{push_u32, u32_bytes};
use crate::header::{
    archive_count_of, archive_of, archives_start_of, descriptor, header_of, layout_fits, region_start, AggregationType, ArchiveInfo,
    Header, STATIC_HEADER_SIZE,
};
use crate::point::{Point, POINT_SIZE};
use crate::retention_policy::RetentionPolicy;
use crate::schema::{
    header_size_of, lemma_policies_size_prefix, max_retention_of, policies_size, Schema,
};

verus! {

/// Where a write stands: nothing stored yet, the index of the archive last
/// stored into, or done.
#[derive(Debug, Clone, Copy, PartialEq, Eq, Structural)]
pub enum WriteState {
    Initial,
    Aggregate(usize),
    Finished,
}

/// What the coarser archive `archive` takes from the archive just below it
/// for the slot `bucket`: the values of the `count` finer slots that cover
/// the bucket, keeping only those whose timestamp is the one expected there.
pub struct Candidates {
    pub archive: usize,
    pub bucket: u32,
    pub values: Vec<u64>,
    pub count: usize,
}

/// The 12 descriptor bytes of a policy whose slots begin at `offset`.
pub open spec fn descriptor_bytes(p: RetentionPolicy, offset: int) -> Seq<u8> {
    u32_bytes(offset as u32) + u32_bytes(p.precision) + u32_bytes((p.retention / p.precision) as u32)
}

/// The descriptors of `ps`, whose slots follow one another from `start`.
pub open spec fn descriptors_bytes(ps: Seq<RetentionPolicy>, start: int) -> Seq<u8>
    decreases ps.len(),
{
    if ps.len() == 0 {
        Seq::empty()
    } else {
        descriptors_bytes(ps.drop_last(), start) + descriptor_bytes(
            ps.last(),
            start + policies_size(ps.drop_last()),
        )
    }
}

/// The header of a new file with policies `ps`.
pub open spec fn header_bytes_of(
    ps: Seq<RetentionPolicy>,
    agg: AggregationType,
    xff: u32,
) -> Seq<u8> {
    u32_bytes(agg.code()) + u32_bytes(max_retention_of(ps) as u32) + u32_bytes(xff) + u32_bytes(
        ps.len() as u32,
    ) + descriptors_bytes(ps, header_size_of(ps.len() as int))
}

/// A write of a point at `t` when the time is `now` lies inside the window
/// that the file keeps.
pub open spec fn accepts(h: Header, t: int, now: int) -> bool {
    t <= now && now - t < h.max_retention
}

/// Archive `k` is the first whose retention exceeds `elapsed`.
pub open spec fn first_covering(archives: Seq<Archive>, elapsed: int, k: int) -> bool {
    &&& 0 <= k < archives.len()
    &&& archives[k].spec_retention() > elapsed
    &&& forall|j: int| 0 <= j < k ==> (#[trigger] archives[j]).spec_retention() <= elapsed
}

/// The `count` points of `a` read from the slot of `bucket` onwards.
pub open spec fn candidate_slots(a: Archive, data: Seq<u8>, bucket: int, count: int) -> Seq<Point> {
    Seq::new(
        count as nat,
        |k: int| a.slot(data, ring_step(a.index_for(data, bucket), k, a.points as int)),
    )
}

/// The values of those points whose timestamp is `base + k * step`, `k`
/// being their position.
pub open spec fn kept_values(pts: Seq<Point>, base: int, step: int) -> Seq<u64>
    decreases pts.len(),
{
    if pts.len() == 0 {
        Seq::empty()
    } else {
        kept_values(pts.drop_last(), base, step) + if pts.last().0 == base + (pts.len() - 1)
            * step {
            seq![pts.last().1]
        } else {
            Seq::<u64>::empty()
        }
    }
}

/// The number of finer slots that one slot of `coarse` covers, at most
/// the size of `fine`.
pub open spec fn candidate_count(fine: Archive, coarse: Archive) -> int {
    let ratio = coarse.seconds_per_point / fine.seconds_per_point;
    if ratio < fine.points {
        ratio as int
    } else {
        fine.points as int
    }
}

/// The steps of a cascade so far. `images[0]` is the image once the point
/// is stored in archive `first`; step `s` hands `cands[s]` to the coarser
/// archive `first + s + 1`, gets `outs[s]` back, and leaves `images[s + 1]`.
/// Only the last step may have got no value.
pub open spec fn cascade_steps(
    f: &WhisperFile,
    t: int,
    first: int,
    cands: Seq<Candidates>,
    outs: Seq<Option<u64>>,
    images: Seq<Seq<u8>>,
) -> bool {
    &&& outs.len() == cands.len()
    &&& images.len() == cands.len() + 1
    &&& 0 <= first
    &&& first + cands.len() < f.archives@.len()
    &&& forall|s: int|
        0 <= s < cands.len() ==> #[trigger] f.candidates_ok(images[s], first + s, t, cands[s])
    &&& forall|s: int|
        0 <= s < cands.len() ==> #[trigger] images[s + 1] == match outs[s] {
            Some(w) => f.archives@[first + s + 1].written(images[s], cands[s].bucket as int, w),
            None => images[s],
        }
    &&& forall|s: int| 0 <= s < cands.len() - 1 ==> (#[trigger] outs[s]) is Some
}

/// A whole cascade: its steps, ending either on a step that got no value
/// or at the coarsest archive.
pub open spec fn cascade_ok(
    f: &WhisperFile,
    t: int,
    first: int,
    cands: Seq<Candidates>,
    outs: Seq<Option<u64>>,
    images: Seq<Seq<u8>>,
) -> bool {
    &&& cascade_steps(f, t, first, cands, outs, images)
    &&& (cands.len() > 0 && outs.last() is None) || first + cands.len() + 1 == f.archives@.len()
}

/// A file's metadata and the archives it is divided into.
pub struct WhisperFile {
    pub header: Header,
    pub archives: Vec<Archive>,
}

impl WhisperFile {
    /// Every archive fits in an image of `len` bytes, after the header
    /// and its descriptors, and no two archives share a byte.
    pub open spec fn wf(&self, len: int) -> bool {
        &&& forall|i: int| 0 <= i < self.archives@.len() ==> (#[trigger] self.archives@[i]).wf(len)
        &&& forall|i: int|
            0 <= i < self.archives@.len() ==> archives_start_of(self.archives@.len() as int)
                <= (#[trigger] self.archives@[i]).offset
        &&& forall|i: int, j: int|
            0 <= i < j < self.archives@.len() ==> (#[trigger] self.archives@[i]).offset
                + self.archives@[i].points * POINT_SIZE <= (#[trigger] self.archives@[j]).offset
    }

    /// What the cascade hands to archive `i + 1` for a point at `t`.
    pub open spec fn candidates_ok(&self, data: Seq<u8>, i: int, t: int, c: Candidates) -> bool {
        let fine = self.archives@[i];
        let coarse = self.archives@[i + 1];
        let b = coarse.spec_bucket(t);
        let n = candidate_count(fine, coarse);
        &&& c.archive == i + 1
        &&& c.bucket == b
        &&& c.count == n
        &&& c.values@ == kept_values(
            candidate_slots(fine, data, b, n),
            b,
            fine.seconds_per_point as int,
        )
    }

    /// Reads the layout of a file image. `None` when the descriptors or
    /// the archives they describe do not fit in it.
    pub fn open_mmap(mmap_data: &[u8]) -> (r: Option<WhisperFile>)
        ensures
            r is Some <==> layout_fits(mmap_data@),
            r matches Some(f) ==> {
                &&& f.header == header_of(mmap_data@)
                &&& f.archives@.len() == archive_count_of(mmap_data@)
                &&& forall|i: int|
                    0 <= i < f.archives@.len() ==> #[trigger] f.archives@[i] == archive_of(
                        mmap_data@,
                        i,
                    )
                &&& f.wf(mmap_data@.len() as int)
            },
    {
        if mmap_data.len() < STATIC_HEADER_SIZE {
            return None;
        }
        let header = Header::new_from_slice(mmap_data);
        match header.mmap_to_archives(mmap_data) {
            Some(archives) => {
                proof {
                    let d = mmap_data@;
                    let n = archives@.len() as int;
                    assert forall|i: int| 0 <= i < n implies archives_start_of(n) <= (
                    #[trigger] archives@[i]).offset by {
                        lemma_region_start_order(d, 0, i);
                        lemma_region_start_order(d, i, i + 1);
                    }
                    assert forall|i: int, j: int| 0 <= i < j < n implies (
                    #[trigger] archives@[i]).offset + archives@[i].points * POINT_SIZE <= (
                    #[trigger] archives@[j]).offset by {
                        lemma_region_start_order(d, 0, i);
                        lemma_region_start_order(d, i, i + 1);
                        lemma_region_start_order(d, i + 1, j);
                        lemma_region_start_order(d, j, j + 1);
                    }
                }
                Some(WhisperFile { header, archives })
            },
            None => None,
        }
    }

    /// The header of a new file: aggregation, longest retention,
    /// x-files-factor bits, archive count, then one descriptor per policy
    /// with the offset at which its slots begin.
    pub fn header_bytes(schema: &Schema, agg: AggregationType, xff: u32) -> (r: Vec<u8>)
        requires
            schema.valid(),
            schema.spec_size_on_disk() <= u32::MAX,
        ensures
            r@ == header_bytes_of(schema.retention_policies@, agg, xff),
    {
        let ps = &schema.retention_policies;
        proof {
            lemma_policies_size_prefix(ps@, 0);
        }
        let mut out: Vec<u8> = Vec::new();
        push_u32(&mut out, agg.to_u32());
        push_u32(&mut out, schema.max_retention());
        push_u32(&mut out, xff);
        push_u32(&mut out, ps.len() as u32);
        let ghost fixed = out@;
        let start = schema.header_size_on_disk();
        let mut offset = start;
        let mut i: usize = 0;
        assert(ps@.subrange(0, 0) =~= Seq::<RetentionPolicy>::empty());
        while i < ps.len()
            invariant
                schema.valid(),
                schema.spec_size_on_disk() <= u32::MAX,
                ps == &schema.retention_policies,
                i <= ps@.len(),
                start == header_size_of(ps@.len() as int),
                offset == start + policies_size(ps@.subrange(0, i as int)),
                out@ == fixed + descriptors_bytes(ps@.subrange(0, i as int), start as int),
            decreases ps@.len() - i,
        {
            let ghost prefix = ps@.subrange(0, i + 1);
            proof {
                assert(prefix.drop_last() =~= ps@.subrange(0, i as int));
                lemma_policies_size_prefix(ps@, i + 1);
            }
            let p = ps[i];
            p.fill_buf(&mut out, offset);
            assert(out@ =~= fixed + descriptors_bytes(prefix, start as int));
            offset = offset + p.size_on_disk();
            i = i + 1;
        }
        assert(ps@.subrange(0, ps@.len() as int) =~= ps@);
        out
    }

    /// The whole image of a new file: its header, then every slot empty.
    pub fn new_image(schema: &Schema, agg: AggregationType, xff: u32) -> (r: Vec<u8>)
        requires
            schema.valid(),
            schema.spec_size_on_disk() <= u32::MAX,
        ensures
            r@.len() == schema.spec_size_on_disk(),
            r@.subrange(0, header_size_of(schema.retention_policies@.len() as int))
                == header_bytes_of(schema.retention_policies@, agg, xff),
            forall|i: int|
                header_size_of(schema.retention_policies@.len() as int) <= i < r@.len() ==> r@[i]
                    == 0,
    {
        let mut out = WhisperFile::header_bytes(schema, agg, xff);
        let ghost head = out@;
        proof {
            assert(head.len() == header_size_of(schema.retention_policies@.len() as int)) by {
                lemma_header_bytes_len(schema.retention_policies@, agg, xff);
            }
        }
        proof {
            lemma_policies_size_prefix(schema.retention_policies@, 0);
        }
        let size = schema.size_on_disk() as usize;
        while out.len() < size
            invariant
                head.len() <= out@.len() <= size,
                out@.subrange(0, head.len() as int) == head,
                forall|i: int| head.len() <= i < out@.len() ==> out@[i] == 0,
            decreases size - out@.len(),
        {
            out.push(0u8);
            assert(out@.subrange(0, head.len() as int) =~= head);
        }
        out
    }

    /// Starts a write of `point` at time `now`. A point from the future or
    /// older than the longest retention changes nothing. Otherwise it is
    /// stored in the first archive whose retention exceeds its age, and the
    /// write goes on from there.
    pub fn begin_write(&self, data: &mut [u8], point: &Point, now: i64) -> (r: WriteState)
        requires
            self.wf(old(data)@.len() as int),
        ensures
            r != WriteState::Initial,
            !accepts(self.header, point.0 as int, now as int) ==> r == WriteState::Finished
                && final(data)@ == old(data)@,
            accepts(self.header, point.0 as int, now as int) ==> match r {
                WriteState::Aggregate(k) => first_covering(self.archives@, now - point.0, k as int)
                    && final(data)@ == self.archives@[k as int].written(
                    old(data)@,
                    point.0 as int,
                    point.1,
                ),
                _ => (forall|j: int|
                    0 <= j < self.archives@.len() ==> (#[trigger] self.archives@[j]).spec_retention()
                        <= now - point.0) && final(data)@ == old(data)@,
            },
    {
        let t = point.0 as i64;
        if now < t {
            return WriteState::Finished;
        }
        let elapsed = (now - t) as u64;
        if elapsed >= self.header.max_retention as u64 {
            return WriteState::Finished;
        }
        let mut i: usize = 0;
        while i < self.archives.len()
            invariant
                self.wf(data@.len() as int),
                data@ == old(data)@,
                elapsed == now - point.0,
                point.0 <= now,
                elapsed < self.header.max_retention,
                i <= self.archives@.len(),
                forall|j: int| 0 <= j < i ==> (#[trigger] self.archives@[j]).spec_retention() <= elapsed,
            decreases self.archives@.len() - i,
        {
            if self.archives[i].retention() > elapsed {
                self.archives[i].write(data, point);
                return WriteState::Aggregate(i);
            }
            i = i + 1;
        }
        WriteState::Finished
    }

    /// The finer points that the next coarser archive aggregates, once
    /// archive `i` has been stored into (`state` is `Aggregate(i)`). `None`
    /// when the write is finished or `i` is the coarsest archive.
    pub fn cascade_candidates(&self, data: &[u8], state: &WriteState, point: &Point) -> (r:
        Option<Candidates>)
        requires
            self.wf(data@.len() as int),
        ensures
            match *state {
                WriteState::Aggregate(i) => if i + 1 < self.archives@.len() {
                    r matches Some(c) && self.candidates_ok(data@, i as int, point.0 as int, c)
                } else {
                    r is None
                },
                _ => r is None,
            },
    {
        let i = match *state {
            WriteState::Aggregate(i) => i,
            _ => {
                return None;
            },
        };
        if i >= self.archives.len() || i + 1 >= self.archives.len() {
            return None;
        }
        let fine = &self.archives[i];
        let coarse = &self.archives[i + 1];
        assert(fine.wf(data@.len() as int));
        assert(coarse.wf(data@.len() as int));
        let ratio = coarse.seconds_per_point / fine.seconds_per_point;
        let count: usize = if (ratio as usize) < fine.points {
            ratio as usize
        } else {
            fine.points
        };
        let bucket = coarse.bucket(point.0);
        let pts = fine.read_points(data, &bucket, count);
        let ghost slots = candidate_slots(*fine, data@, bucket.0 as int, count as int);
        assert(pts@ =~= slots);
        let step = fine.seconds_per_point as u64;
        let mut values: Vec<u64> = Vec::new();
        let mut k: usize = 0;
        assert(slots.subrange(0, 0) =~= Seq::<Point>::empty());
        while k < count
            invariant
                pts@ == slots,
                slots.len() == count,
                count <= fine.points <= u32::MAX,
                step == fine.seconds_per_point,
                k <= count,
                values@ == kept_values(slots.subrange(0, k as int), bucket.0 as int, step as int),
            decreases count - k,
        {
            assert(k * step <= u32::MAX * u32::MAX) by (nonlinear_arith)
                requires
                    k <= u32::MAX,
                    step <= u32::MAX,
            ;
            let expected = bucket.0 as u64 + k as u64 * step;
            let ghost prefix = slots.subrange(0, k + 1);
            assert(prefix.drop_last() =~= slots.subrange(0, k as int));
            if pts[k].0 as u64 == expected {
                values.push(pts[k].1);
            }
            k = k + 1;
        }
        assert(slots.subrange(0, count as int) =~= slots);
        Some(Candidates { archive: i + 1, bucket: bucket.0, values, count })
    }

    /// Writes `point` at time `now`, cascading to the end. `decide` is
    /// handed what each coarser archive would aggregate and returns the
    /// aggregated value, or `None` when too few finer slots are populated;
    /// the first `None` ends the cascade.
    pub fn write_with<F: Fn(&Candidates) -> Option<u64>>(
        &self,
        data: &mut [u8],
        point: &Point,
        now: i64,
        decide: F,
    )
        requires
            self.wf(old(data)@.len() as int),
            forall|c: &Candidates| call_requires(decide, (c,)),
        ensures
            !accepts(self.header, point.0 as int, now as int) ==> final(data)@ == old(data)@,
            (forall|j: int|
                0 <= j < self.archives@.len() ==> (#[trigger] self.archives@[j]).spec_retention()
                    <= now - point.0) ==> final(data)@ == old(data)@,
            forall|k: int|
                accepts(self.header, point.0 as int, now as int) && #[trigger] first_covering(
                    self.archives@,
                    now - point.0,
                    k,
                ) ==> exists|cands: Seq<Candidates>, outs: Seq<Option<u64>>, images: Seq<Seq<u8>>|
                    #[trigger] cascade_ok(self, point.0 as int, k, cands, outs, images) && images[0]
                        == self.archives@[k].written(old(data)@, point.0 as int, point.1)
                        && final(data)@ == images.last() && forall|s: int|
                        0 <= s < cands.len() ==> call_ensures(
                            decide,
                            (&cands[s],),
                            #[trigger] outs[s],
                        ),
    {
        let ghost start = data@;
        let ghost elapsed = now - point.0;
        let mut state = self.begin_write(data, point, now);
        let ghost covered = state != WriteState::Finished;
        let ghost first: int = match state {
            WriteState::Aggregate(k) => k as int,
            _ => 0,
        };
        let ghost mut cands: Seq<Candidates> = Seq::empty();
        let ghost mut outs: Seq<Option<u64>> = Seq::empty();
        let ghost mut images: Seq<Seq<u8>> = seq![data@];
        let mut done = false;
        let archive_count = self.archives.len();
        while !done
            invariant
                archive_count == self.archives@.len(),
                self.wf(data@.len() as int),
                forall|c: &Candidates| call_requires(decide, (c,)),
                state != WriteState::Initial,
                covered ==> accepts(self.header, point.0 as int, now as int) && first_covering(
                    self.archives@,
                    elapsed,
                    first,
                ),
                covered ==> images[0] == self.archives@[first].written(
                    start,
                    point.0 as int,
                    point.1,
                ),
                covered ==> cascade_steps(self, point.0 as int, first, cands, outs, images),
                covered && !done ==> (state == WriteState::Aggregate((first + cands.len()) as usize)
                    || (state == WriteState::Finished && cands.len() > 0 && outs.last() is None)),
                covered && state != WriteState::Finished && cands.len() > 0 ==> outs.last() is Some,
                covered && done ==> (cands.len() > 0 && outs.last() is None) || first + cands.len()
                    + 1 == self.archives@.len(),
                !covered ==> state == WriteState::Finished && cands.len() == 0 && images == seq![
                    start,
                ],
                data@ == images.last(),
                forall|s: int|
                    0 <= s < cands.len() ==> call_ensures(decide, (&cands[s],), #[trigger] outs[s]),
            decreases (self.archives@.len() - cands.len()) * 2 + if done {
                0int
            } else {
                1int
            },
        {
            let next = self.cascade_candidates(data, &state, point);
            match next {
                Some(c) => {
                    let out = decide(&c);
                    let ghost before = data@;
                    let ghost prev_cands = cands;
                    let ghost prev_outs = outs;
                    let ghost prev_images = images;
                    let ghost prev_state = state;
                    proof {
                        assert(covered);
                        assert(prev_state == WriteState::Aggregate((first + prev_cands.len()) as usize));
                        assert(next == Some(c));
                        assert((first + prev_cands.len()) as usize as int == first + prev_cands.len());
                        assert(self.candidates_ok(before, first + prev_cands.len(), point.0 as int, c));
                        assert(prev_images[prev_cands.len() as int] == before);
                    }
                    state = self.apply_aggregate(data, &c, out);
                    proof {
                        cands = cands.push(c);
                        outs = outs.push(out);
                        images = images.push(data@);
                        let n = prev_cands.len() as int;
                        assert forall|s: int| 0 <= s < cands.len() implies #[trigger] self.candidates_ok(
                            images[s],
                            first + s,
                            point.0 as int,
                            cands[s],
                        ) by {
                            if s < n {
                                assert(images[s] == prev_images[s]);
                                assert(cands[s] == prev_cands[s]);
                            } else {
                                assert(images[s] == before);
                                assert(cands[s] == c);
                            }
                        }
                        assert forall|s: int| 0 <= s < cands.len() implies #[trigger] images[s + 1]
                            == match outs[s] {
                            Some(w) => self.archives@[first + s + 1].written(
                                images[s],
                                cands[s].bucket as int,
                                w,
                            ),
                            None => images[s],
                        } by {
                            if s < n {
                                assert(images[s + 1] == prev_images[s + 1]);
                                assert(images[s] == prev_images[s]);
                                assert(outs[s] == prev_outs[s]);
                                assert(cands[s] == prev_cands[s]);
                            } else {
                                assert(images[s] == before);
                                assert(images[s + 1] == data@);
                                assert(cands[s] == c);
                                assert(outs[s] == out);
                            }
                        }
                        assert forall|s: int| 0 <= s < cands.len() implies call_ensures(
                            decide,
                            (&cands[s],),
                            #[trigger] outs[s],
                        ) by {
                            if s < n {
                                assert(outs[s] == prev_outs[s]);
                                assert(cands[s] == prev_cands[s]);
                            }
                        }
                        assert forall|s: int| 0 <= s < cands.len() - 1 implies (#[trigger] outs[s]) is Some by {
                            assert(outs[s] == prev_outs[s]);
                            if s == n - 1 {
                                assert(prev_outs.last() == prev_outs[s]);
                            }
                        }
                    }
                },
                None => {
                    done = true;
                },
            }
        }
        proof {
            if accepts(self.header, point.0 as int, now as int) {
                assert forall|k: int| #[trigger] first_covering(self.archives@, elapsed, k) implies covered && k == first by {
                    if !covered {
                        assert(self.archives@[k].spec_retention() <= elapsed);
                    } else if k < first {
                        assert(self.archives@[k].spec_retention() <= elapsed);
                    } else if k > first {
                        assert(self.archives@[first].spec_retention() <= elapsed);
                    }
                }
                if covered {
                    assert(cascade_ok(self, point.0 as int, first, cands, outs, images));
                }
            }
            if forall|j: int|
                0 <= j < self.archives@.len() ==> (#[trigger] self.archives@[j]).spec_retention()
                    <= elapsed {
                if covered {
                    assert(self.archives@[first].spec_retention() <= elapsed);
                }
            }
        }
    }

    /// Ends one step of the cascade: with an aggregated value, stores
    /// `(bucket, value)` in the coarser archive and goes on from there;
    /// without one (too few finer points), finishes and stores nothing.
    pub fn apply_aggregate(&self, data: &mut [u8], candidates: &Candidates, value: Option<u64>) -> (r:
        WriteState)
        requires
            self.wf(old(data)@.len() as int),
            candidates.archive < self.archives@.len(),
        ensures
            match value {
                Some(v) => r == WriteState::Aggregate(candidates.archive) && final(data)@
                    == self.archives@[candidates.archive as int].written(
                    old(data)@,
                    candidates.bucket as int,
                    v,
                ),
                None => r == WriteState::Finished && final(data)@ == old(data)@,
            },
    {
        match value {
            Some(v) => {
                self.archives[candidates.archive].write(data, &Point(candidates.bucket, v));
                WriteState::Aggregate(candidates.archive)
            },
            None => WriteState::Finished,
        }
    }
}

/// Archives begin no earlier than those before them in the layout.
proof fn lemma_region_start_order(data: Seq<u8>, i: int, j: int)
    requires
        0 <= i <= j,
    ensures
        region_start(data, i) <= region_start(data, j),
        region_start(data, 0) == archives_start_of(archive_count_of(data)),
    decreases j - i,
{
    if i < j {
        lemma_region_start_order(data, i, j - 1);
        assert(region_start(data, j) == region_start(data, j - 1) + descriptor(data, j - 1).1
            * POINT_SIZE);
    }
}

/// A write into archive `k` of a well-formed file changes neither the
/// header nor any byte of another archive `j`.
pub proof fn lemma_write_keeps_others(
    f: WhisperFile,
    data: Seq<u8>,
    k: int,
    t: u32,
    v: u64,
    j: int,
    i: int,
)
    requires
        f.wf(data.len() as int),
        0 <= k < f.archives@.len(),
        0 <= i < data.len(),
        i < archives_start_of(f.archives@.len() as int) || (0 <= j < f.archives@.len() && j != k
            && f.archives@[j].offset <= i < f.archives@[j].offset + f.archives@[j].points
            * POINT_SIZE),
    ensures
        f.archives@[k].written(data, t as int, v)[i] == data[i],
{
    let a = f.archives@[k];
    assert(a.wf(data.len() as int));
    if i >= archives_start_of(f.archives@.len() as int) {
        if j < k {
            assert(f.archives@[j].offset + f.archives@[j].points * POINT_SIZE <= a.offset);
        } else {
            assert(a.offset + a.points * POINT_SIZE <= f.archives@[j].offset);
        }
    } else {
        assert(archives_start_of(f.archives@.len() as int) <= a.offset);
    }
    crate::archive::lemma_write_stays_inside(a, data, t, v, i);
}

proof fn lemma_descriptors_index(ps: Seq<RetentionPolicy>, start: int, i: int)
    requires
        0 <= i < ps.len(),
    ensures
        descriptors_bytes(ps, start).subrange(12 * i, 12 * i + 12) == descriptor_bytes(
            ps[i],
            start + policies_size(ps.subrange(0, i)),
        ),
    decreases ps.len(),
{
    let init = ps.drop_last();
    lemma_descriptors_len(init, start);
    let d = descriptors_bytes(ps, start);
    if i == ps.len() - 1 {
        assert(ps.subrange(0, i) =~= init);
        assert(d.subrange(12 * i, 12 * i + 12) =~= descriptor_bytes(
            ps.last(),
            start + policies_size(init),
        ));
    } else {
        lemma_descriptors_index(init, start, i);
        assert(init.subrange(0, i) =~= ps.subrange(0, i));
        assert(d.subrange(12 * i, 12 * i + 12) =~= descriptors_bytes(init, start).subrange(
            12 * i,
            12 * i + 12,
        ));
    }
}

proof fn lemma_region_start_of_image(
    ps: Seq<RetentionPolicy>,
    data: Seq<u8>,
    i: int,
)
    requires
        0 <= i <= ps.len(),
        archive_count_of(data) == ps.len(),
        forall|k: int|
            0 <= k < ps.len() ==> (#[trigger] descriptor(data, k)).1 == ps[k].retention
                / ps[k].precision,
    ensures
        region_start(data, i) == header_size_of(ps.len() as int) + policies_size(
            ps.subrange(0, i),
        ),
    decreases i,
{
    if i > 0 {
        lemma_region_start_of_image(ps, data, i - 1);
        assert(ps.subrange(0, i).drop_last() =~= ps.subrange(0, i - 1));
        assert(descriptor(data, i - 1).1 == ps[i - 1].retention / ps[i - 1].precision);
    }
}

proof fn lemma_image_fixed(ps: Seq<RetentionPolicy>, agg: AggregationType, xff: u32, data: Seq<u8>)
    requires
        ps.len() < u32::MAX,
        header_size_of(ps.len() as int) <= data.len(),
        data.subrange(0, header_size_of(ps.len() as int)) == header_bytes_of(ps, agg, xff),
    ensures
        header_of(data) == (Header {
            aggregation_type: agg,
            max_retention: max_retention_of(ps) as u32,
            x_files_factor: xff,
        }),
        archive_count_of(data) == ps.len(),
{
    let n = ps.len() as int;
    let hs = header_size_of(n);
    let hb = header_bytes_of(ps, agg, xff);
    lemma_header_bytes_len(ps, agg, xff);
    crate::codec::lemma_u32_round_trip(agg.code());
    crate::codec::lemma_u32_round_trip(max_retention_of(ps) as u32);
    crate::codec::lemma_u32_round_trip(xff);
    crate::codec::lemma_u32_round_trip(n as u32);
    let b0 = u32_bytes(agg.code());
    let b1 = u32_bytes(max_retention_of(ps) as u32);
    let b2 = u32_bytes(xff);
    let b3 = u32_bytes(n as u32);
    assert(hb == b0 + b1 + b2 + b3 + descriptors_bytes(ps, hs));
    assert(hb.subrange(0, 4) =~= b0);
    assert(hb.subrange(4, 8) =~= b1);
    assert(hb.subrange(8, 12) =~= b2);
    assert(hb.subrange(12, 16) =~= b3);
    assert(data.subrange(0, 4) =~= hb.subrange(0, 4));
    assert(data.subrange(4, 8) =~= hb.subrange(4, 8));
    assert(data.subrange(8, 12) =~= hb.subrange(8, 12));
    assert(data.subrange(12, 16) =~= hb.subrange(12, 16));
}

proof fn lemma_image_descriptor(
    ps: Seq<RetentionPolicy>,
    agg: AggregationType,
    xff: u32,
    data: Seq<u8>,
    i: int,
)
    requires
        0 <= i < ps.len(),
        ps[i].precision > 0,
        header_size_of(ps.len() as int) <= data.len(),
        data.subrange(0, header_size_of(ps.len() as int)) == header_bytes_of(ps, agg, xff),
    ensures
        descriptor(data, i) == ArchiveInfo(
            ps[i].precision,
            (ps[i].retention / ps[i].precision) as u32,
        ),
{
    let n = ps.len() as int;
    let hs = header_size_of(n);
    let hb = header_bytes_of(ps, agg, xff);
    let desc = descriptors_bytes(ps, hs);
    let fixed = u32_bytes(agg.code()) + u32_bytes(max_retention_of(ps) as u32) + u32_bytes(xff)
        + u32_bytes(n as u32);
    assert(fixed.len() == 16);
    assert(hb == fixed + desc);
    lemma_descriptors_len(ps, hs);
    lemma_descriptors_index(ps, hs, i);
    let pos = 16 + 12 * i;
    let one = descriptor_bytes(ps[i], hs + policies_size(ps.subrange(0, i)));
    assert forall|k: int| 0 <= k < 12 implies data[pos + k] == #[trigger] one[k] by {
        assert(data.subrange(0, hs)[pos + k] == data[pos + k]);
        assert(hb[pos + k] == desc[12 * i + k]);
        assert(desc.subrange(12 * i, 12 * i + 12)[k] == desc[12 * i + k]);
    }
    crate::codec::lemma_u32_round_trip(ps[i].precision);
    crate::codec::lemma_u32_round_trip((ps[i].retention / ps[i].precision) as u32);
    assert(data.subrange(pos + 4, pos + 8) =~= one.subrange(4, 8));
    assert(data.subrange(pos + 8, pos + 12) =~= one.subrange(8, 12));
    assert(one.subrange(4, 8) =~= u32_bytes(ps[i].precision));
    assert(one.subrange(8, 12) =~= u32_bytes((ps[i].retention / ps[i].precision) as u32));
}

/// The image of a new file, or any image that begins with the header that
/// such a file is created with, opens as the schema's archives, stored one
/// after another after the header, and its header reads back as written.
pub proof fn lemma_new_image_opens(
    schema: Schema,
    agg: AggregationType,
    xff: u32,
    data: Seq<u8>,
)
    requires
        schema.valid(),
        schema.spec_size_on_disk() <= u32::MAX,
        forall|i: int|
            0 <= i < schema.retention_policies@.len() ==> (#[trigger] schema.retention_policies@[i]).retention
                / schema.retention_policies@[i].precision > 0,
        data.len() == schema.spec_size_on_disk(),
        data.subrange(0, header_size_of(schema.retention_policies@.len() as int))
            == header_bytes_of(schema.retention_policies@, agg, xff),
    ensures
        layout_fits(data),
        header_of(data) == (Header {
            aggregation_type: agg,
            max_retention: max_retention_of(schema.retention_policies@) as u32,
            x_files_factor: xff,
        }),
        archive_count_of(data) == schema.retention_policies@.len(),
        forall|i: int|
            0 <= i < schema.retention_policies@.len() ==> #[trigger] archive_of(data, i) == (Archive {
                seconds_per_point: schema.retention_policies@[i].precision,
                points: (schema.retention_policies@[i].retention
                    / schema.retention_policies@[i].precision) as usize,
                offset: (header_size_of(schema.retention_policies@.len() as int) + policies_size(
                    schema.retention_policies@.subrange(0, i),
                )) as usize,
            }),
{
    let ps = schema.retention_policies@;
    let n = ps.len() as int;
    let hs = header_size_of(n);
    lemma_policies_size_prefix(ps, 0);
    assert(ps.subrange(0, 0) =~= Seq::<RetentionPolicy>::empty());
    lemma_image_fixed(ps, agg, xff, data);
    assert forall|i: int| 0 <= i < n implies #[trigger] descriptor(data, i) == ArchiveInfo(
        ps[i].precision,
        (ps[i].retention / ps[i].precision) as u32,
    ) by {
        lemma_image_descriptor(ps, agg, xff, data, i);
    }
    assert forall|i: int| 0 <= i <= n implies region_start(data, i) == hs + policies_size(
        #[trigger] ps.subrange(0, i),
    ) by {
        lemma_region_start_of_image(ps, data, i);
    }
    assert forall|i: int| 0 <= i < n implies {
        &&& #[trigger] descriptor(data, i).0 > 0
        &&& descriptor(data, i).1 > 0
        &&& region_start(data, i + 1) <= data.len()
    } by {
        assert(region_start(data, i + 1) == hs + policies_size(ps.subrange(0, i + 1)));
        lemma_policies_size_prefix(ps, i + 1);
    }
    assert forall|i: int| 0 <= i < n implies #[trigger] archive_of(data, i) == (Archive {
        seconds_per_point: ps[i].precision,
        points: (ps[i].retention / ps[i].precision) as usize,
        offset: (hs + policies_size(ps.subrange(0, i))) as usize,
    }) by {
        assert(region_start(data, i) == hs + policies_size(ps.subrange(0, i)));
    }
}

proof fn lemma_descriptors_len(ps: Seq<RetentionPolicy>, start: int)
    ensures
        descriptors_bytes(ps, start).len() == 12 * ps.len(),
    decreases ps.len(),
{
    if ps.len() > 0 {
        lemma_descriptors_len(ps.drop_last(), start);
    }
}

proof fn lemma_header_bytes_len(ps: Seq<RetentionPolicy>, agg: AggregationType, xff: u32)
    ensures
        header_bytes_of(ps, agg, xff).len() == header_size_of(ps.len() as int),
{
    lemma_descriptors_len(ps, header_size_of(ps.len() as int));
}

} // verus!
