//! Whole-buffer aggregation: partition, aggregate each range, merge.
use vstd::prelude::*;
use crate::aggregate::{
    SummaryError, fold_range, tally_range, counts_fit, station_counts_fit, aggregate_range,
    lemma_fold_concat, lemma_fold_is_tally, lemma_tally_concat, lemma_tally_positive, lemma_range_counts_fit,
    lemma_counts_fit_parts,
};
use crate::partition::{partition, ranges_cover, is_boundary};
use crate::stats::{Summary, StationMap, merge_maps, merge_all};
use crate::table::StationTable;
use crate::render::{render, render_map};
use vstd::utf8::{valid_utf8, decode_utf8};

verus! {

/// Aggregates `buf` over `worker_count` line-aligned ranges, one after the
/// other, merging each local table into the final one. Where no station has
/// more than `u32::MAX` records, the result is exactly `fold_range` of the
/// whole buffer.
pub fn aggregate_all(buf: &[u8], worker_count: usize) -> (r: Result<StationTable, SummaryError>)
    requires
        worker_count >= 1,
    ensures
        match r {
            Ok(t) => t.wf() && fold_range(buf@, 0, buf@.len() as int) == Ok::<StationMap, int>(t@),
            Err(SummaryError::MalformedRecord { offset }) => fold_range(buf@, 0, buf@.len() as int) == Err::<
                StationMap,
                int,
            >(offset as int),
            Err(SummaryError::TooManyRecords) => !station_counts_fit(buf@),
        },
{
    let ranges = partition(buf, worker_count);
    let mut total = StationTable::new();
    let mut k: usize = 0;
    let mut done: usize = 0;
    while k < ranges.len()
        invariant
            ranges_cover(buf@, ranges@),
            k <= ranges@.len(),
            done <= buf@.len(),
            k == 0 ==> done == 0,
            0 < k < ranges@.len() ==> done == ranges@[k as int].start,
            k == ranges@.len() ==> done == buf@.len(),
            is_boundary(buf@, done as int),
            total.wf(),
            fold_range(buf@, 0, done as int) == Ok::<StationMap, int>(total@),
        decreases ranges@.len() - k,
    {
        let range = ranges[k];
        proof {
            if k > 0 {
                assert(ranges@[k - 1].end == ranges@[k as int].start);
            }
        }
        proof {
            if station_counts_fit(buf@) {
                lemma_range_counts_fit(buf@, range.start as int, range.end as int);
            }
        }
        let local = aggregate_range(buf, range.start, range.end);
        proof {
            lemma_fold_concat(buf@, 0, done as int, range.end as int);
        }
        match local {
            Ok(local) => {
                let ghost before = total@;
                proof {
                    total.lemma_view_wf();
                    local.lemma_view_wf();
                }
                proof {
                    if station_counts_fit(buf@) {
                    let e = Map::<Seq<u8>, Summary>::empty();
                    let n = buf@.len() as int;
                    let end = range.end as int;
                    lemma_fold_is_tally(buf@, 0, 0, end, e);
                    lemma_tally_concat(buf@, 0, end, n);
                    lemma_tally_positive(buf@, 0, 0, end, e);
                    lemma_tally_positive(buf@, end, end, n, e);
                    lemma_counts_fit_parts(tally_range(buf@, 0, end), tally_range(buf@, end, n));
                    assert forall|k: Seq<u8>|
                        before.contains_key(k) && local@.contains_key(k) implies #[trigger] before[k].count
                        + local@[k].count <= u32::MAX by {
                        assert(merge_maps(before, local@).contains_key(k));
                    }
                    }
                }
                if !total.try_merge_from(&local) {
                    return Err(SummaryError::TooManyRecords);
                }
                done = range.end;
            },
            Err(e) => {
                proof {
                    lemma_fold_concat(buf@, 0, range.end as int, buf@.len() as int);
                }
                return Err(e);
            },
        }
        k += 1;
    }
    proof {
        if ranges@.len() == 0 {
            assert(fold_range(buf@, 0, 0) == Ok::<StationMap, int>(Map::empty()));
        }
    }
    Ok(total)
}

/// The mappings of the per-range results, an error standing for no station.
pub open spec fn result_views(parts: Seq<Result<StationTable, SummaryError>>) -> Seq<StationMap> {
    parts.map_values(
        |p: Result<StationTable, SummaryError>|
            match p {
                Ok(t) => t@,
                Err(_) => Map::empty(),
            },
    )
}

/// Merges per-range results in range order: the first error among them, or
/// the merge of all the tables; `TooManyRecords` when the merge of the
/// first few tables already has a station over `u32::MAX`.
pub fn merge_range_results(parts: &Vec<Result<StationTable, SummaryError>>) -> (r: Result<StationTable, SummaryError>)
    requires
        forall|j: int| 0 <= j < parts@.len() ==> (#[trigger] parts@[j] matches Ok(t) ==> t.wf()),
    ensures
        match r {
            Ok(t) => t.wf() && (forall|j: int| 0 <= j < parts@.len() ==> (#[trigger] parts@[j]) is Ok) && t@
                == merge_all(result_views(parts@)),
            Err(e) => (exists|j: int|
                0 <= j < parts@.len() && parts@[j] == Err::<StationTable, SummaryError>(e) && forall|i: int|
                    0 <= i < j ==> (#[trigger] parts@[i]) is Ok) || (e == SummaryError::TooManyRecords && exists|
                n: int,
            |
                0 < n <= parts@.len() && (forall|i: int| 0 <= i < n ==> (#[trigger] parts@[i]) is Ok) && !counts_fit(
                    merge_all(#[trigger] result_views(parts@).take(n)),
                )),
        },
{
    let ghost views = result_views(parts@);
    let mut total = StationTable::new();
    let mut j: usize = 0;
    assert(views.take(0) =~= Seq::<StationMap>::empty());
    while j < parts.len()
        invariant
            views == result_views(parts@),
            forall|q: int| 0 <= q < parts@.len() ==> (#[trigger] parts@[q] matches Ok(t) ==> t.wf()),
            j <= parts@.len(),
            forall|i: int| 0 <= i < j ==> (#[trigger] parts@[i]) is Ok,
            total.wf(),
            total@ == merge_all(views.take(j as int)),
        decreases parts.len() - j,
    {
        match &parts[j] {
            Ok(t) => {
                let ghost before = total@;
                let ok = total.try_merge_from(t);
                proof {
                    let n = j + 1;
                    assert(views.take(n).drop_last() =~= views.take(j as int));
                    assert(views.take(n).last() == t@);
                    assert(merge_all(views.take(n)) == merge_maps(before, t@));
                    if !ok {
                        let k = choose|k: Seq<u8>|
                            !(before.contains_key(k) && t@.contains_key(k) ==> #[trigger] before[k].count
                                + t@[k].count <= u32::MAX);
                        assert(merge_maps(before, t@).contains_key(k));
                        assert(forall|i: int| 0 <= i < n ==> (#[trigger] parts@[i]) is Ok);
                    }
                }
                if !ok {
                    return Err(SummaryError::TooManyRecords);
                }
            },
            Err(e) => {
                return Err(*e);
            },
        }
        j += 1;
    }
    assert(views.take(views.len() as int) =~= views);
    Ok(total)
}

/// The summary text of `buf`, or the offset of its first malformed record.
pub open spec fn summary_of(buf: Seq<u8>) -> Result<Seq<u8>, int> {
    match fold_range(buf, 0, buf.len() as int) {
        Ok(m) => Ok(render_map(m)),
        Err(e) => Err(e),
    }
}

/// Summary text, as bytes, of the records of `buf`, aggregated over
/// `worker_count` ranges.
pub fn summarize(buf: &[u8], worker_count: usize) -> (r: Result<Vec<u8>, SummaryError>)
    requires
        worker_count >= 1,
    ensures
        match r {
            Ok(text) => summary_of(buf@) == Ok::<Seq<u8>, int>(text@),
            Err(SummaryError::MalformedRecord { offset }) => summary_of(buf@) == Err::<Seq<u8>, int>(offset as int),
            Err(SummaryError::TooManyRecords) => !station_counts_fit(buf@),
        },
{
    let table = aggregate_all(buf, worker_count)?;
    Ok(render(&table))
}

/// Relies on `String::from_utf8_lossy`: bytes that are valid UTF-8 are
/// decoded unchanged.
#[verifier::external_body]
fn text_of(bytes: &[u8]) -> (r: String)
    ensures
        valid_utf8(bytes@) ==> r@ == decode_utf8(bytes@),
{
    String::from_utf8_lossy(bytes).into_owned()
}

/// The summary line `{name=min/mean/max, ...}` of the records of `buffer`,
/// aggregated over `worker_count` ranges; station names that are not UTF-8
/// are shown with replacement characters.
pub fn compute_and_format(buffer: &[u8], worker_count: usize) -> (r: Result<String, SummaryError>)
    requires
        worker_count >= 1,
    ensures
        match r {
            Ok(s) => summary_of(buffer@) is Ok && (valid_utf8(summary_of(buffer@)->Ok_0) ==> s@ == decode_utf8(
                summary_of(buffer@)->Ok_0,
            )),
            Err(SummaryError::MalformedRecord { offset }) => summary_of(buffer@) == Err::<Seq<u8>, int>(
                offset as int,
            ),
            Err(SummaryError::TooManyRecords) => !station_counts_fit(buffer@),
        },
{
    let bytes = summarize(buffer, worker_count)?;
    Ok(text_of(bytes.as_slice()))
}

} // verus!
