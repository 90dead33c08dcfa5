//! The fixed file header and the archive descriptors that follow it.
use vstd::prelude::*;

use crate::archive::{Archive, ARCHIVE_INFO_SIZE};
use crate::codec::{be_u32, read_u32};
use crate::point::POINT_SIZE;

verus! {

/// Bytes of the fixed header: aggregation, max retention, xff, count.
pub const STATIC_HEADER_SIZE: usize = 16;

/// How the points of a finer archive combine into one coarser point.
#[derive(Debug, Clone, Copy, PartialEq, Eq, Structural)]
pub enum AggregationType {
    Average,
    Sum,
}

/// The aggregation that an on-disk code selects; unknown codes mean Average.
pub open spec fn aggregation_of(code: int) -> AggregationType {
    if code == 2 {
        AggregationType::Sum
    } else {
        AggregationType::Average
    }
}

impl AggregationType {
    /// The on-disk code of this aggregation.
    pub open spec fn code(self) -> u32 {
        match self {
            AggregationType::Average => 1,
            AggregationType::Sum => 2,
        }
    }

    pub fn from_u32(val: u32) -> (r: AggregationType)
        ensures
            r == aggregation_of(val as int),
    {
        match val {
            2 => AggregationType::Sum,
            _ => AggregationType::Average,
        }
    }

    pub fn to_u32(&self) -> (r: u32)
        ensures
            r == self.code(),
            aggregation_of(r as int) == *self,
    {
        match self {
            AggregationType::Average => 1,
            AggregationType::Sum => 2,
        }
    }

    /// The lower-case name of this aggregation.
    pub fn name(&self) -> (r: &'static str)
        ensures
            r@ == (match self {
                AggregationType::Average => "average"@,
                AggregationType::Sum => "sum"@,
            }),
    {
        match self {
            AggregationType::Average => "average",
            AggregationType::Sum => "sum",
        }
    }
}

/// File-level metadata. The x-files-factor is kept as the bit pattern of
/// the IEEE-754 single-precision number stored on disk.
#[derive(Debug, Clone, Copy, PartialEq, Eq, Structural)]
pub struct Header {
    pub aggregation_type: AggregationType,
    pub max_retention: u32,
    pub x_files_factor: u32,
}

/// Seconds per point and number of points of one archive descriptor.
#[derive(Debug, Clone, Copy, PartialEq, Eq, Structural)]
pub struct ArchiveInfo(pub u32, pub u32);

/// The big-endian `u32` at byte `pos`.
pub open spec fn u32_at(data: Seq<u8>, pos: int) -> int {
    be_u32(data.subrange(pos, pos + 4))
}

/// The header that the first 16 bytes of `data` hold.
pub open spec fn header_of(data: Seq<u8>) -> Header {
    Header {
        aggregation_type: aggregation_of(u32_at(data, 0)),
        max_retention: u32_at(data, 4) as u32,
        x_files_factor: u32_at(data, 8) as u32,
    }
}

/// The number of archives that the header announces.
pub open spec fn archive_count_of(data: Seq<u8>) -> int {
    u32_at(data, 12)
}

/// Where the archive data begins, after `count` descriptors.
pub open spec fn archives_start_of(count: int) -> int {
    STATIC_HEADER_SIZE + ARCHIVE_INFO_SIZE * count
}

/// Descriptor `i`; its first field, the offset, is not read.
pub open spec fn descriptor(data: Seq<u8>, i: int) -> ArchiveInfo {
    let pos = STATIC_HEADER_SIZE + ARCHIVE_INFO_SIZE * i;
    ArchiveInfo(u32_at(data, pos + 4) as u32, u32_at(data, pos + 8) as u32)
}

/// Where archive `i` begins when the archives are stored one after another
/// in descriptor order.
pub open spec fn region_start(data: Seq<u8>, i: int) -> int
    decreases i,
{
    if i <= 0 {
        archives_start_of(archive_count_of(data))
    } else {
        region_start(data, i - 1) + descriptor(data, i - 1).1 * POINT_SIZE
    }
}

/// The descriptors fit in `data`, and so does every archive, each with a
/// positive precision and at least one point.
pub open spec fn layout_fits(data: Seq<u8>) -> bool {
    &&& STATIC_HEADER_SIZE <= data.len()
    &&& archives_start_of(archive_count_of(data)) <= data.len()
    &&& forall|i: int|
        0 <= i < archive_count_of(data) ==> {
            &&& #[trigger] descriptor(data, i).0 > 0
            &&& descriptor(data, i).1 > 0
            &&& region_start(data, i + 1) <= data.len()
        }
}

/// The archive that descriptor `i` describes, at its place in the layout.
pub open spec fn archive_of(data: Seq<u8>, i: int) -> Archive {
    Archive {
        seconds_per_point: descriptor(data, i).0,
        points: descriptor(data, i).1 as usize,
        offset: region_start(data, i) as usize,
    }
}

impl Header {
    /// Decodes the fixed header.
    pub fn new_from_slice(mmap_data: &[u8]) -> (r: Header)
        requires
            STATIC_HEADER_SIZE <= mmap_data@.len(),
        ensures
            r == header_of(mmap_data@),
    {
        let aggregation_type_u32 = read_u32(mmap_data, 0);
        let max_retention = read_u32(mmap_data, 4);
        let x_files_factor = read_u32(mmap_data, 8);
        let agg_type = AggregationType::from_u32(aggregation_type_u32);
        Header::new(agg_type, max_retention, x_files_factor)
    }

    pub fn new(agg_type: AggregationType, max_ret: u32, xff: u32) -> (r: Header)
        ensures
            r == (Header { aggregation_type: agg_type, max_retention: max_ret, x_files_factor: xff }),
    {
        Header { aggregation_type: agg_type, max_retention: max_ret, x_files_factor: xff }
    }

    /// The number of archives that the header announces.
    pub fn archive_count(mmap_data: &[u8]) -> (r: u32)
        requires
            STATIC_HEADER_SIZE <= mmap_data@.len(),
        ensures
            r == archive_count_of(mmap_data@),
    {
        read_u32(mmap_data, 12)
    }

    /// Where the archive data begins, after `archive_count` descriptors.
    pub fn archives_start(archive_count: usize) -> (r: usize)
        requires
            archives_start_of(archive_count as int) <= usize::MAX,
        ensures
            r == archives_start_of(archive_count as int),
    {
        STATIC_HEADER_SIZE + ARCHIVE_INFO_SIZE * archive_count
    }

    pub fn aggregation_type(&self) -> (r: AggregationType)
        ensures
            r == self.aggregation_type,
    {
        self.aggregation_type
    }

    pub fn max_retention(&self) -> (r: u32)
        ensures
            r == self.max_retention,
    {
        self.max_retention
    }

    /// The bit pattern of the single-precision x-files-factor.
    pub fn x_files_factor(&self) -> (r: u32)
        ensures
            r == self.x_files_factor,
    {
        self.x_files_factor
    }

    /// The `archive_count` descriptors, in order.
    pub fn archive_infos(archive_count: usize, all_header_data: &[u8]) -> (r: Vec<ArchiveInfo>)
        requires
            archives_start_of(archive_count as int) <= all_header_data@.len(),
        ensures
            r@.len() == archive_count,
            forall|i: int|
                0 <= i < archive_count ==> #[trigger] r@[i] == descriptor(all_header_data@, i),
    {
        let _n = all_header_data.len();
        let mut infos: Vec<ArchiveInfo> = Vec::new();
        let mut i: usize = 0;
        while i < archive_count
            invariant
                archives_start_of(archive_count as int) <= all_header_data@.len(),
                all_header_data@.len() <= usize::MAX,
                i <= archive_count,
                infos@.len() == i,
                forall|k: int| 0 <= k < i ==> #[trigger] infos@[k] == descriptor(all_header_data@, k),
            decreases archive_count - i,
        {
            let pos = STATIC_HEADER_SIZE + ARCHIVE_INFO_SIZE * i;
            let seconds_per_point = read_u32(all_header_data, pos + 4);
            let points = read_u32(all_header_data, pos + 8);
            infos.push(ArchiveInfo(seconds_per_point, points));
            i = i + 1;
        }
        infos
    }

    /// Splits the image into its archives, stored one after another after
    /// the descriptors. The offsets written in the descriptors are not read.
    /// `None` when the layout does not fit in the image.
    pub fn mmap_to_archives(&self, mmap_data: &[u8]) -> (r: Option<Vec<Archive>>)
        ensures
            r is Some <==> layout_fits(mmap_data@),
            r matches Some(v) ==> {
                &&& v@.len() == archive_count_of(mmap_data@)
                &&& forall|i: int| 0 <= i < v@.len() ==> #[trigger] v@[i] == archive_of(mmap_data@, i)
                &&& forall|i: int| 0 <= i < v@.len() ==> (#[trigger] v@[i]).wf(mmap_data@.len() as int)
            },
    {
        let len = mmap_data.len();
        if len < STATIC_HEADER_SIZE {
            return None;
        }
        let count = Header::archive_count(mmap_data);
        if count as usize > (len - STATIC_HEADER_SIZE) / ARCHIVE_INFO_SIZE {
            return None;
        }
        let count = count as usize;
        let start = Header::archives_start(count);
        let infos = Header::archive_infos(count, mmap_data);
        let mut archives: Vec<Archive> = Vec::new();
        let mut offset = start;
        let mut i: usize = 0;
        while i < count
            invariant
                len == mmap_data@.len(),
                count == archive_count_of(mmap_data@),
                archives_start_of(count as int) <= len,
                infos@.len() == count,
                forall|k: int| 0 <= k < count ==> #[trigger] infos@[k] == descriptor(mmap_data@, k),
                i <= count,
                offset == region_start(mmap_data@, i as int),
                offset <= len,
                archives@.len() == i,
                forall|k: int| 0 <= k < i ==> #[trigger] archives@[k] == archive_of(mmap_data@, k),
                forall|k: int| 0 <= k < i ==> (#[trigger] archives@[k]).wf(len as int),
                forall|k: int|
                    0 <= k < i ==> {
                        &&& #[trigger] descriptor(mmap_data@, k).0 > 0
                        &&& descriptor(mmap_data@, k).1 > 0
                        &&& region_start(mmap_data@, k + 1) <= len
                    },
            decreases count - i,
        {
            let info = infos[i];
            if info.0 == 0 || info.1 == 0 || info.1 as usize > (len - offset) / POINT_SIZE {
                return None;
            }
            assert(info.1 * POINT_SIZE <= len - offset) by (nonlinear_arith)
                requires
                    info.1 <= (len - offset) / POINT_SIZE as int,
            ;
            assert(region_start(mmap_data@, i + 1) == offset + info.1 * POINT_SIZE);
            archives.push(Archive::new(info.0, info.1 as usize, offset));
            offset = offset + info.1 as usize * POINT_SIZE;
            let ghost prev = i as int;
            assert(info == descriptor(mmap_data@, prev));
            assert(region_start(mmap_data@, prev + 1) <= len);
            i = i + 1;
            assert forall|k: int| 0 <= k < i implies {
                &&& #[trigger] descriptor(mmap_data@, k).0 > 0
                &&& descriptor(mmap_data@, k).1 > 0
                &&& region_start(mmap_data@, k + 1) <= len
            } by {
                if k == prev {
                    assert(descriptor(mmap_data@, k) == info);
                }
            }
        }
        Some(archives)
    }
}

} // verus!
