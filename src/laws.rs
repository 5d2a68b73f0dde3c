//! Properties that relate several operations of the library.
use vstd::prelude::*;
use vstd::seq_lib::{group_to_multiset_ensures, to_multiset_len};
use vstd::multiset::group_multiset_axioms;
use crate::aggregate::{fold_range, tally_range, tally_records, lemma_fold_is_tally, lemma_fold_concat, lemma_tally_concat};
use crate::partition::{PartitionRange, ranges_cover, is_boundary};
use crate::record::{TERMINATOR, record_of};
use crate::render::{render_map, render_listing, is_listing, lemma_listing_unique};
use crate::summary::summary_of;
use crate::stats::{Summary, StationMap, observe, merge_all, merge_maps, lemma_merge_empty, lemma_merge_commutes, lemma_merge_associates};

verus! {

/// Merge of the local mappings of the first `n` ranges, in order; the first
/// malformed record met stops it.
pub open spec fn merged_ranges(buf: Seq<u8>, ranges: Seq<PartitionRange>, n: int) -> Result<StationMap, int>
    decreases n,
{
    if n <= 0 {
        Ok(Map::empty())
    } else {
        match merged_ranges(buf, ranges, n - 1) {
            Err(e) => Err(e),
            Ok(acc) => match fold_range(buf, ranges[n - 1].start as int, ranges[n - 1].end as int) {
                Err(e) => Err(e),
                Ok(x) => Ok(merge_maps(acc, x)),
            },
        }
    }
}

proof fn lemma_merged_prefix(buf: Seq<u8>, ranges: Seq<PartitionRange>, n: int)
    requires
        ranges_cover(buf, ranges),
        0 < n <= ranges.len(),
    ensures
        merged_ranges(buf, ranges, n) == fold_range(buf, 0, ranges[n - 1].end as int),
    decreases n,
{
    let r = ranges[n - 1];
    if n == 1 {
        let e = Map::<Seq<u8>, Summary>::empty();
        assert(fold_range(buf, 0, 0) == Ok::<StationMap, int>(e));
        lemma_fold_concat(buf, 0, 0, r.end as int);
        if let Ok(x) = fold_range(buf, 0, r.end as int) {
            lemma_merge_empty(x);
        }
    } else {
        lemma_merged_prefix(buf, ranges, n - 1);
        assert(ranges[n - 2].end == r.start);
        assert(is_boundary(buf, ranges[n - 2].end as int));
        lemma_range_order(buf, ranges, n - 2);
        lemma_fold_concat(buf, 0, r.start as int, r.end as int);
    }
}

proof fn lemma_range_order(buf: Seq<u8>, ranges: Seq<PartitionRange>, k: int)
    requires
        ranges_cover(buf, ranges),
        0 <= k < ranges.len(),
    ensures
        0 <= ranges[k].start <= ranges[k].end <= buf.len(),
        forall|j: int| k < j < ranges.len() ==> ranges[k].end <= #[trigger] ranges[j].start,
    decreases ranges.len() - k,
{
    if k + 1 < ranges.len() {
        lemma_range_order(buf, ranges, k + 1);
        assert(ranges[k].end == ranges[k + 1].start);
    } else {
        assert(ranges[k] == ranges.last());
    }
    if k > 0 {
        lemma_range_start(buf, ranges, k);
    }
}

proof fn lemma_range_start(buf: Seq<u8>, ranges: Seq<PartitionRange>, k: int)
    requires
        ranges_cover(buf, ranges),
        0 <= k < ranges.len(),
    ensures
        0 <= ranges[k].start,
    decreases k,
{
    if k > 0 {
        lemma_range_start(buf, ranges, k - 1);
        assert(ranges[k - 1].end == ranges[k].start);
    }
}

/// Aggregating each range of a covering partition and merging the local
/// mappings in order gives what aggregating the whole buffer at once gives,
/// malformed records included.
pub proof fn lemma_partition_agrees(buf: Seq<u8>, ranges: Seq<PartitionRange>)
    requires
        ranges_cover(buf, ranges),
    ensures
        merged_ranges(buf, ranges, ranges.len() as int) == fold_range(buf, 0, buf.len() as int),
{
    if ranges.len() == 0 {
        assert(fold_range(buf, 0, 0) == Ok::<StationMap, int>(Map::empty()));
    } else {
        lemma_merged_prefix(buf, ranges, ranges.len() as int);
    }
}

/// Any two covering partitions of a buffer, whatever their number of ranges,
/// give the same merged mapping, and so the same summary text.
pub proof fn lemma_partition_independent(buf: Seq<u8>, r1: Seq<PartitionRange>, r2: Seq<PartitionRange>)
    requires
        ranges_cover(buf, r1),
        ranges_cover(buf, r2),
    ensures
        merged_ranges(buf, r1, r1.len() as int) == merged_ranges(buf, r2, r2.len() as int),
        merged_ranges(buf, r1, r1.len() as int) matches Ok(m1) ==> merged_ranges(buf, r2, r2.len() as int)
            matches Ok(m2) && render_map(m1) == render_map(m2),
{
    lemma_partition_agrees(buf, r1);
    lemma_partition_agrees(buf, r2);
}

proof fn lemma_merge_all_remove(parts: Seq<StationMap>, k: int)
    requires
        0 <= k < parts.len(),
    ensures
        merge_all(parts) == merge_maps(merge_all(parts.remove(k)), parts[k]),
    decreases parts.len(),
{
    if k == parts.len() - 1 {
        assert(parts.remove(k) =~= parts.drop_last());
    } else {
        let d = parts.drop_last();
        lemma_merge_all_remove(d, k);
        assert(parts.remove(k).drop_last() =~= d.remove(k));
        assert(parts.remove(k).last() == parts.last());
        let a = merge_all(d.remove(k));
        lemma_merge_associates(a, parts[k], parts.last());
        lemma_merge_commutes(parts[k], parts.last());
        lemma_merge_associates(a, parts.last(), parts[k]);
    }
}

/// Merging local mappings gives the same result in whatever order the
/// workers hand them over.
pub proof fn lemma_merge_order_free(parts1: Seq<StationMap>, parts2: Seq<StationMap>)
    requires
        parts1.to_multiset() == parts2.to_multiset(),
    ensures
        merge_all(parts1) == merge_all(parts2),
    decreases parts1.len(),
{
    broadcast use group_to_multiset_ensures, group_multiset_axioms;

    if parts1.len() == 0 {
        to_multiset_len(parts1);
        to_multiset_len(parts2);
        assert(parts2.len() == 0);
        assert(merge_all(parts2) == Map::<Seq<u8>, Summary>::empty());
    } else {
        let x = parts1.last();
        assert(parts1.to_multiset().count(x) > 0) by {
            assert(parts1.contains(x)) by {
                assert(parts1[parts1.len() - 1] == x);
            }
        }
        assert(parts2.contains(x));
        let k = choose|k: int| 0 <= k < parts2.len() && parts2[k] == x;
        let last = parts1.len() - 1;
        assert(parts1.remove(last) =~= parts1.drop_last());
        assert(parts1.remove(last).to_multiset() == parts2.remove(k).to_multiset());
        lemma_merge_order_free(parts1.drop_last(), parts2.remove(k));
        lemma_merge_all_remove(parts2, k);
        assert(merge_all(parts1) == merge_maps(merge_all(parts1.drop_last()), x));
    }
}

/// Every non-empty record of the buffer (a terminator-free span that starts at
/// a boundary and ends at a terminator or at the end) lies within exactly one
/// range of a covering partition.
pub proof fn lemma_record_in_one_range(buf: Seq<u8>, ranges: Seq<PartitionRange>, i: int, j: int)
    requires
        ranges_cover(buf, ranges),
        0 <= i < j <= buf.len(),
        is_boundary(buf, i),
        j == buf.len() || buf[j] == TERMINATOR,
        forall|p: int| i <= p < j ==> buf[p] != TERMINATOR,
    ensures
        exists|k: int| 0 <= k < ranges.len() && ranges[k].start <= i && j <= ranges[k].end,
        forall|k1: int, k2: int|
            0 <= k1 < ranges.len() && 0 <= k2 < ranges.len() && ranges[k1].start <= i && j <= ranges[k1].end
                && ranges[k2].start <= i && j <= ranges[k2].end ==> k1 == k2,
{
    let k = lemma_range_holding(buf, ranges, i, ranges.len() as int);
    lemma_range_order(buf, ranges, k);
    let e = ranges[k].end as int;
    if e < j {
        assert(is_boundary(buf, e));
        assert(buf[e - 1] != TERMINATOR);
    }
    assert forall|k1: int, k2: int|
        0 <= k1 < ranges.len() && 0 <= k2 < ranges.len() && ranges[k1].start <= i && j <= ranges[k1].end
            && ranges[k2].start <= i && j <= ranges[k2].end implies k1 == k2 by {
        if k1 < k2 {
            lemma_range_order(buf, ranges, k1);
        } else if k2 < k1 {
            lemma_range_order(buf, ranges, k2);
        }
    }
}

proof fn lemma_range_holding(buf: Seq<u8>, ranges: Seq<PartitionRange>, p: int, n: int) -> (k: int)
    requires
        ranges_cover(buf, ranges),
        0 < n <= ranges.len(),
        0 <= p < ranges[n - 1].end,
    ensures
        0 <= k < n,
        ranges[k].start <= p < ranges[k].end,
    decreases n,
{
    if n == 1 || ranges[n - 1].start <= p {
        if n == 1 {
            assert(ranges[0].start == 0);
        }
        n - 1
    } else {
        assert(ranges[n - 2].end == ranges[n - 1].start);
        lemma_range_holding(buf, ranges, p, n - 1)
    }
}

/// An empty buffer, whatever the number of workers, is summarised as `{}`.
pub proof fn lemma_empty_input()
    ensures
        summary_of(Seq::<u8>::empty()) == Ok::<Seq<u8>, int>(seq![123u8, 125u8]),
{
    let buf = Seq::<u8>::empty();
    let e = Map::<Seq<u8>, Summary>::empty();
    assert(fold_range(buf, 0, 0) == Ok::<StationMap, int>(e));
    let none = Seq::<(Seq<u8>, Summary)>::empty();
    assert(is_listing(none, e));
    let c = choose|c: Seq<(Seq<u8>, Summary)>| is_listing(c, e);
    lemma_listing_unique(c, none, e);
    assert(render_listing(none) =~= seq![123u8, 125u8]);
}

/// Number of observations of station `k` in `m`, zero when absent.
pub open spec fn count_of(m: StationMap, k: Seq<u8>) -> int {
    if m.contains_key(k) { m[k].count } else { 0 }
}

/// Observations of station `k` over the first `n` ranges, each range tallied
/// on its own.
pub open spec fn range_count_sum(buf: Seq<u8>, ranges: Seq<PartitionRange>, n: int, k: Seq<u8>) -> int
    decreases n,
{
    if n <= 0 {
        0
    } else {
        range_count_sum(buf, ranges, n - 1, k) + count_of(
            tally_range(buf, ranges[n - 1].start as int, ranges[n - 1].end as int),
            k,
        )
    }
}

proof fn lemma_count_prefix(buf: Seq<u8>, ranges: Seq<PartitionRange>, n: int, k: Seq<u8>)
    requires
        ranges_cover(buf, ranges),
        0 < n <= ranges.len(),
    ensures
        count_of(tally_range(buf, 0, ranges[n - 1].end as int), k) == range_count_sum(buf, ranges, n, k),
    decreases n,
{
    let r = ranges[n - 1];
    lemma_range_order(buf, ranges, n - 1);
    if n > 1 {
        lemma_count_prefix(buf, ranges, n - 1, k);
        assert(ranges[n - 2].end == r.start);
        lemma_range_order(buf, ranges, n - 2);
        assert(is_boundary(buf, ranges[n - 2].end as int));
        lemma_tally_concat(buf, 0, r.start as int, r.end as int);
        let a = tally_range(buf, 0, r.start as int);
        let b = tally_range(buf, r.start as int, r.end as int);
        assert(count_of(merge_maps(a, b), k) == count_of(a, k) + count_of(b, k));
    } else {
        assert(r.start == 0);
        assert(range_count_sum(buf, ranges, 0, k) == 0);
    }
}

/// Every well-formed record is counted by exactly one range: for each
/// station, the observations tallied range by range add up to those of the
/// whole buffer; where no record is malformed, these are the counts of the
/// buffer's final mapping.
pub proof fn lemma_counts_add_up(buf: Seq<u8>, ranges: Seq<PartitionRange>, k: Seq<u8>)
    requires
        ranges_cover(buf, ranges),
    ensures
        count_of(tally_range(buf, 0, buf.len() as int), k) == range_count_sum(buf, ranges, ranges.len() as int, k),
        fold_range(buf, 0, buf.len() as int) matches Ok(m) ==> count_of(m, k) == range_count_sum(
            buf,
            ranges,
            ranges.len() as int,
            k,
        ),
{
    lemma_fold_is_tally(buf, 0, 0, buf.len() as int, Map::empty());
    if ranges.len() > 0 {
        lemma_count_prefix(buf, ranges, ranges.len() as int, k);
    } else {
        assert(tally_range(buf, 0, 0) == Map::<Seq<u8>, Summary>::empty());
    }
}

/// Number of well-formed records met scanning from `i` to `end`, where the
/// current record started at `rs`.
pub open spec fn count_records(buf: Seq<u8>, rs: int, i: int, end: int) -> int
    decreases end - i,
{
    if i >= end {
        if rs < end && record_of(buf.subrange(rs, end)) is Some { 1 } else { 0 }
    } else if buf[i] == TERMINATOR {
        (if rs < i && record_of(buf.subrange(rs, i)) is Some { 1int } else { 0int }) + count_records(
            buf,
            i + 1,
            i + 1,
            end,
        )
    } else {
        count_records(buf, rs, i + 1, end)
    }
}

/// Observations over all stations of a finite mapping.
pub open spec fn total_count(m: StationMap) -> int
    decreases m.len(),
    via total_count_decreases
{
    if m.dom().finite() && m.len() > 0 {
        let k = m.dom().choose();
        m[k].count + total_count(m.remove(k))
    } else {
        0
    }
}

#[via_fn]
proof fn total_count_decreases(m: StationMap) {
    broadcast use vstd::set::group_set_axioms;

    if m.dom().finite() && m.len() > 0 {
        let k = m.dom().choose();
        assert(m.remove(k).dom() =~= m.dom().remove(k));
        assert(m.remove(k).len() < m.len());
    }
}

proof fn lemma_total_remove(m: StationMap, k: Seq<u8>)
    requires
        m.dom().finite(),
        m.contains_key(k),
    ensures
        total_count(m) == m[k].count + total_count(m.remove(k)),
    decreases m.len(),
{
    broadcast use vstd::set::group_set_axioms;

    let j = m.dom().choose();
    assert(m.remove(j).dom() =~= m.dom().remove(j));
    assert(m.remove(k).dom() =~= m.dom().remove(k));
    if j != k {
        lemma_total_remove(m.remove(j), k);
        lemma_total_remove(m.remove(k), j);
        assert(m.remove(j).remove(k) =~= m.remove(k).remove(j));
    }
}

proof fn lemma_total_observe(m: StationMap, name: Seq<u8>, t: int)
    requires
        m.dom().finite(),
    ensures
        observe(m, name, t).dom().finite(),
        total_count(observe(m, name, t)) == total_count(m) + 1,
{
    let o = observe(m, name, t);
    lemma_total_remove(o, name);
    if m.contains_key(name) {
        assert(o.remove(name) =~= m.remove(name));
        lemma_total_remove(m, name);
    } else {
        assert(o.remove(name) =~= m);
    }
}

proof fn lemma_total_tally(buf: Seq<u8>, rs: int, i: int, end: int, m: StationMap)
    requires
        m.dom().finite(),
    ensures
        total_count(tally_records(buf, rs, i, end, m)) == total_count(m) + count_records(buf, rs, i, end),
    decreases end - i,
{
    if i >= end {
        if rs < end {
            if let Some((name, t)) = record_of(buf.subrange(rs, end)) {
                lemma_total_observe(m, name, t);
            }
        }
    } else if buf[i] == TERMINATOR {
        if rs < i {
            if let Some((name, t)) = record_of(buf.subrange(rs, i)) {
                lemma_total_observe(m, name, t);
                lemma_total_tally(buf, i + 1, i + 1, end, observe(m, name, t));
            } else {
                lemma_total_tally(buf, i + 1, i + 1, end, m);
            }
        } else {
            lemma_total_tally(buf, i + 1, i + 1, end, m);
        }
    } else {
        lemma_total_tally(buf, rs, i + 1, end, m);
    }
}

/// Well-formed records over the first `n` ranges, each range counted on its own.
pub open spec fn range_record_sum(buf: Seq<u8>, ranges: Seq<PartitionRange>, n: int) -> int
    decreases n,
{
    if n <= 0 {
        0
    } else {
        range_record_sum(buf, ranges, n - 1) + count_records(
            buf,
            ranges[n - 1].start as int,
            ranges[n - 1].start as int,
            ranges[n - 1].end as int,
        )
    }
}

proof fn lemma_count_records_splits(buf: Seq<u8>, rs: int, i: int, b: int, end: int)
    requires
        0 <= rs <= i <= b <= end <= buf.len(),
        b == end || (i == b && rs == b) || (i < b && buf[b - 1] == TERMINATOR),
    ensures
        count_records(buf, rs, i, end) == count_records(buf, rs, i, b) + count_records(buf, b, b, end),
    decreases b - i,
{
    if b == end {
    } else if i == b {
    } else if buf[i] == TERMINATOR {
        lemma_count_records_splits(buf, i + 1, i + 1, b, end);
    } else {
        lemma_count_records_splits(buf, rs, i + 1, b, end);
    }
}

proof fn lemma_record_prefix(buf: Seq<u8>, ranges: Seq<PartitionRange>, n: int)
    requires
        ranges_cover(buf, ranges),
        0 < n <= ranges.len(),
    ensures
        count_records(buf, 0, 0, ranges[n - 1].end as int) == range_record_sum(buf, ranges, n),
    decreases n,
{
    let r = ranges[n - 1];
    lemma_range_order(buf, ranges, n - 1);
    if n > 1 {
        lemma_record_prefix(buf, ranges, n - 1);
        assert(ranges[n - 2].end == r.start);
        lemma_range_order(buf, ranges, n - 2);
        assert(is_boundary(buf, ranges[n - 2].end as int));
        lemma_count_records_splits(buf, 0, 0, r.start as int, r.end as int);
        assert(range_record_sum(buf, ranges, n) == range_record_sum(buf, ranges, n - 1) + count_records(
            buf,
            r.start as int,
            r.start as int,
            r.end as int,
        ));
    } else {
        assert(r.start == 0);
        assert(range_record_sum(buf, ranges, 0) == 0);
    }
}

/// Every well-formed record is aggregated exactly once: over a covering
/// partition, the records counted range by range add up to the records of
/// the whole buffer, and the observations of all stations of the buffer's
/// final mapping (where no record is malformed) number exactly these.
pub proof fn lemma_records_add_up(buf: Seq<u8>, ranges: Seq<PartitionRange>)
    requires
        ranges_cover(buf, ranges),
    ensures
        count_records(buf, 0, 0, buf.len() as int) == range_record_sum(buf, ranges, ranges.len() as int),
        total_count(tally_range(buf, 0, buf.len() as int)) == count_records(buf, 0, 0, buf.len() as int),
        fold_range(buf, 0, buf.len() as int) matches Ok(m) ==> total_count(m) == range_record_sum(
            buf,
            ranges,
            ranges.len() as int,
        ),
{
    let e = Map::<Seq<u8>, Summary>::empty();
    assert(e.dom() =~= Set::<Seq<u8>>::empty());
    lemma_total_tally(buf, 0, 0, buf.len() as int, e);
    lemma_fold_is_tally(buf, 0, 0, buf.len() as int, e);
    if ranges.len() > 0 {
        lemma_record_prefix(buf, ranges, ranges.len() as int);
    }
}

} // verus!
