//! Division of the buffer into line-aligned byte ranges, one per worker.
use vstd::prelude::*;
use crate::record::TERMINATOR;

verus! {

/// Half-open byte range `start..end` of the buffer.
#[derive(Clone, Copy, Debug, PartialEq, Eq)]
pub struct PartitionRange {
    pub start: usize,
    pub end: usize,
}

/// `b` is the start or end of the buffer, or follows a terminator: no record
/// straddles it.
pub open spec fn is_boundary(buf: Seq<u8>, b: int) -> bool {
    b == 0 || b == buf.len() || (0 < b <= buf.len() && buf[b - 1] == TERMINATOR)
}

/// The boundary just after the first terminator at or after `p`, or the end
/// of the buffer when there is none.
pub open spec fn boundary_from(buf: Seq<u8>, p: int) -> int
    decreases buf.len() - p,
{
    if p >= buf.len() {
        buf.len() as int
    } else if p >= 0 && buf[p] == TERMINATOR {
        p + 1
    } else if p < 0 {
        boundary_from(buf, 0)
    } else {
        boundary_from(buf, p + 1)
    }
}

/// The ranges are contiguous, in order, cover `buf` exactly, and each of
/// their ends is a boundary.
pub open spec fn ranges_cover(buf: Seq<u8>, ranges: Seq<PartitionRange>) -> bool {
    &&& ranges.len() == 0 ==> buf.len() == 0
    &&& ranges.len() > 0 ==> ranges[0].start == 0 && ranges.last().end == buf.len()
    &&& forall|k: int| 0 <= k < ranges.len() ==> (#[trigger] ranges[k]).start <= ranges[k].end
    &&& forall|k: int| 0 <= k < ranges.len() ==> is_boundary(buf, (#[trigger] ranges[k]).end as int)
    &&& forall|k: int| 0 <= k < ranges.len() - 1 ==> (#[trigger] ranges[k]).end == ranges[k + 1].start
}

proof fn lemma_boundary_from(buf: Seq<u8>, p: int)
    requires
        0 <= p,
    ensures
        p <= boundary_from(buf, p) || p > buf.len(),
        boundary_from(buf, p) <= buf.len(),
        is_boundary(buf, boundary_from(buf, p)),
    decreases buf.len() - p,
{
    if p < buf.len() && buf[p] != TERMINATOR {
        lemma_boundary_from(buf, p + 1);
    }
}

/// Splits `buf` into `worker_count` ranges of about `buf.len() / worker_count`
/// bytes each, moving every inner end forward past the next terminator; the
/// last range takes the rest. An empty buffer gives no range.
pub fn partition(buf: &[u8], worker_count: usize) -> (r: Vec<PartitionRange>)
    requires
        worker_count >= 1,
    ensures
        ranges_cover(buf@, r@),
        buf@.len() == 0 ==> r@.len() == 0,
        buf@.len() > 0 ==> r@.len() == worker_count,
        forall|k: int|
            0 <= k < r@.len() - 1 ==> (#[trigger] r@[k]).end == boundary_from(
                buf@,
                r@[k].start + (buf@.len() as int) / (worker_count as int),
            ),
{
    let mut ranges: Vec<PartitionRange> = Vec::new();
    let len = buf.len();
    if len == 0 {
        return ranges;
    }
    let chunk = len / worker_count;
    let mut start: usize = 0;
    let mut k: usize = 0;
    while k + 1 < worker_count
        invariant
            len == buf@.len(),
            len > 0,
            chunk == (len as int) / (worker_count as int),
            k < worker_count,
            ranges@.len() == k,
            start <= len,
            is_boundary(buf@, start as int),
            k == 0 ==> start == 0,
            k > 0 ==> ranges@[0].start == 0 && ranges@.last().end == start,
            forall|j: int| 0 <= j < k ==> (#[trigger] ranges@[j]).start <= ranges@[j].end,
            forall|j: int| 0 <= j < k ==> is_boundary(buf@, (#[trigger] ranges@[j]).end as int),
            forall|j: int| 0 <= j < k - 1 ==> (#[trigger] ranges@[j]).end == ranges@[j + 1].start,
            forall|j: int|
                0 <= j < k ==> (#[trigger] ranges@[j]).end == boundary_from(
                    buf@,
                    ranges@[j].start + (buf@.len() as int) / (worker_count as int),
                ),
        decreases worker_count - k,
    {
        let mut j: usize = if chunk > len - start { len } else { start + chunk };
        proof {
            if chunk > len - start {
                assert(boundary_from(buf@, start + chunk as int) == boundary_from(buf@, len as int));
            }
        }
        let ghost target = boundary_from(buf@, start + chunk as int);
        while j < len && buf[j] != TERMINATOR
            invariant
                len == buf@.len(),
                start <= j <= len,
                boundary_from(buf@, j as int) == target,
            decreases len - j,
        {
            j += 1;
        }
        let end = if j < len { j + 1 } else { len };
        proof {
            lemma_boundary_from(buf@, j as int);
        }
        ranges.push(PartitionRange { start, end });
        start = end;
        k += 1;
    }
    ranges.push(PartitionRange { start, end: len });
    ranges
}

} // verus!
