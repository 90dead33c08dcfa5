//! The ordered list of retention policies of a file, finest first.
use vstd::prelude::*;

use crate::archive::ARCHIVE_INFO_SIZE;
use crate::errors::SchemaError;
use crate::header::STATIC_HEADER_SIZE;
use crate::point::POINT_SIZE;
use crate::retention_policy::{parse_outcome, RetentionPolicy};

verus! {

/// Bytes taken by the slots of all the policies.
pub open spec fn policies_size(ps: Seq<RetentionPolicy>) -> int
    decreases ps.len(),
{
    if ps.len() == 0 {
        0
    } else {
        policies_size(ps.drop_last()) + (ps.last().retention / ps.last().precision)
            * POINT_SIZE
    }
}

/// The longest retention of the policies, zero when there are none.
pub open spec fn max_retention_of(ps: Seq<RetentionPolicy>) -> int
    decreases ps.len(),
{
    if ps.len() == 0 {
        0
    } else {
        let m = max_retention_of(ps.drop_last());
        if ps.last().retention > m {
            ps.last().retention as int
        } else {
            m
        }
    }
}

/// Bytes of the header of a file with `n` archives.
pub open spec fn header_size_of(n: int) -> int {
    STATIC_HEADER_SIZE + ARCHIVE_INFO_SIZE * n
}

/// Every spec reads successfully.
pub open spec fn all_parse(specs: Seq<String>) -> bool {
    forall|i: int| 0 <= i < specs.len() ==> (#[trigger] parse_outcome(specs[i]@)) is Ok
}

/// Each policy is what its spec reads as.
pub open spec fn policies_match(specs: Seq<String>, ps: Seq<RetentionPolicy>) -> bool {
    &&& ps.len() == specs.len()
    &&& forall|i: int|
        0 <= i < specs.len() ==> parse_outcome(specs[i]@) == Ok::<(u32, u32), Seq<char>>(
            ((#[trigger] ps[i]).precision, ps[i].retention),
        )
}

/// Spec `i` is the first that cannot be read.
pub open spec fn first_failure(specs: Seq<String>, i: int) -> bool {
    &&& 0 <= i < specs.len()
    &&& parse_outcome(specs[i]@) is Err
    &&& forall|j: int| 0 <= j < i ==> (#[trigger] parse_outcome(specs[j]@)) is Ok
}

pub struct Schema {
    pub retention_policies: Vec<RetentionPolicy>,
}

impl Schema {
    /// Every policy has a positive precision.
    pub open spec fn valid(&self) -> bool {
        forall|i: int|
            0 <= i < self.retention_policies@.len() ==> #[trigger] self.retention_policies@[i].precision
                > 0
    }

    /// Bytes of a file with this schema.
    pub open spec fn spec_size_on_disk(&self) -> int {
        header_size_of(self.retention_policies@.len() as int) + policies_size(
            self.retention_policies@,
        )
    }

    /// Reads each spec in order; the first one that cannot be read gives
    /// the error.
    pub fn new_from_retention_specs(specs: Vec<String>) -> (r: Result<Schema, SchemaError>)
        ensures
            all_parse(specs@) ==> (r matches Ok(s) && policies_match(
                specs@,
                s.retention_policies@,
            )),
            !all_parse(specs@) ==> (r matches Err(e) && exists|i: int|
                #[trigger] first_failure(specs@, i) && e.0@ == parse_outcome(specs@[i]@)->Err_0),
    {
        let mut policies: Vec<RetentionPolicy> = Vec::new();
        let mut i: usize = 0;
        while i < specs.len()
            invariant
                i <= specs@.len(),
                policies@.len() == i,
                forall|j: int| 0 <= j < i ==> (#[trigger] parse_outcome(specs@[j]@)) is Ok,
                policies_match(specs@.subrange(0, i as int), policies@),
            decreases specs@.len() - i,
        {
            match RetentionPolicy::spec_to_retention_policy(specs[i].as_str()) {
                Ok(p) => {
                    policies.push(p);
                },
                Err(e) => {
                    assert(first_failure(specs@, i as int));
                    return Err(e);
                },
            }
            i = i + 1;
        }
        assert(specs@.subrange(0, specs@.len() as int) =~= specs@);
        Ok(Schema { retention_policies: policies })
    }

    /// Bytes of the header: the fixed part and one descriptor per policy.
    pub fn header_size_on_disk(&self) -> (r: u32)
        requires
            header_size_of(self.retention_policies@.len() as int) <= u32::MAX,
        ensures
            r == header_size_of(self.retention_policies@.len() as int),
    {
        STATIC_HEADER_SIZE as u32 + ARCHIVE_INFO_SIZE as u32 * self.retention_policies.len() as u32
    }

    /// Bytes of the whole file: the header and every policy's slots.
    pub fn size_on_disk(&self) -> (r: u32)
        requires
            self.valid(),
            self.spec_size_on_disk() <= u32::MAX,
        ensures
            r == self.spec_size_on_disk(),
    {
        let ps = &self.retention_policies;
        let mut total: u32 = 0;
        let mut i: usize = 0;
        while i < ps.len()
            invariant
                self.valid(),
                self.spec_size_on_disk() <= u32::MAX,
                ps == &self.retention_policies,
                i <= ps@.len(),
                total == policies_size(ps@.subrange(0, i as int)),
            decreases ps@.len() - i,
        {
            proof {
                assert(ps@.subrange(0, i + 1).drop_last() =~= ps@.subrange(0, i as int));
                lemma_policies_size_prefix(ps@, i + 1);
            }
            total = total + ps[i].size_on_disk();
            i = i + 1;
        }
        assert(ps@.subrange(0, ps@.len() as int) =~= ps@);
        self.header_size_on_disk() + total
    }

    /// The longest retention of the policies, zero when there are none.
    pub fn max_retention(&self) -> (r: u32)
        ensures
            r == max_retention_of(self.retention_policies@),
    {
        let ps = &self.retention_policies;
        let mut m: u32 = 0;
        let mut i: usize = 0;
        assert(ps@.subrange(0, 0) =~= Seq::<RetentionPolicy>::empty());
        while i < ps.len()
            invariant
                ps == &self.retention_policies,
                i <= ps@.len(),
                m == max_retention_of(ps@.subrange(0, i as int)),
            decreases ps@.len() - i,
        {
            assert(ps@.subrange(0, i + 1).drop_last() =~= ps@.subrange(0, i as int));
            if ps[i].retention > m {
                m = ps[i].retention;
            }
            i = i + 1;
        }
        assert(ps@.subrange(0, ps@.len() as int) =~= ps@);
        m
    }
}

/// The slots of a prefix take no more bytes than those of the whole list.
pub proof fn lemma_policies_size_prefix(ps: Seq<RetentionPolicy>, n: int)
    requires
        0 <= n <= ps.len(),
        forall|i: int| 0 <= i < ps.len() ==> #[trigger] ps[i].precision > 0,
    ensures
        0 <= policies_size(ps.subrange(0, n)) <= policies_size(ps),
    decreases ps.len() - n,
{
    if n < ps.len() {
        lemma_policies_size_prefix(ps, n + 1);
        assert(ps.subrange(0, n + 1).drop_last() =~= ps.subrange(0, n));
        lemma_policies_size_nonneg(ps.subrange(0, n));
        let last = ps.subrange(0, n + 1).last();
        assert(last.precision > 0);
        assert((last.retention / last.precision) * POINT_SIZE >= 0) by (nonlinear_arith)
            requires
                last.precision > 0,
        ;
    } else {
        assert(ps.subrange(0, n) =~= ps);
        lemma_policies_size_nonneg(ps);
    }
}

proof fn lemma_policies_size_nonneg(ps: Seq<RetentionPolicy>)
    requires
        forall|i: int| 0 <= i < ps.len() ==> #[trigger] ps[i].precision > 0,
    ensures
        policies_size(ps) >= 0,
    decreases ps.len(),
{
    if ps.len() > 0 {
        lemma_policies_size_nonneg(ps.drop_last());
    }
}

} // verus!
