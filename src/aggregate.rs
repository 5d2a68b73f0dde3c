//! Single-pass aggregation of the records of one byte range.
use vstd::prelude::*;
use crate::record::{TERMINATOR, first_separator, record_of, parse_record, lemma_temperature_bounds};
use crate::stats::{Summary, StationMap, single, observe, merge_maps, lemma_absorb_is_merge, lemma_merge_associates, lemma_merge_empty};
use crate::table::StationTable;
use crate::partition::is_boundary;

verus! {

/// Why a buffer has no summary.
#[derive(Clone, Copy, Debug, PartialEq, Eq)]
pub enum SummaryError {
    /// A record that does not match `name;-?D{1,2}.D`; `offset` is the
    /// position of its first byte in the buffer.
    MalformedRecord { offset: usize },
    /// A station has more records than its `u32` count can hold.
    TooManyRecords,
}

/// Scans `buf` from `i` up to `end`, where the current record started at `rs`,
/// folding each non-empty record into `m`; the first malformed record gives
/// its start offset as the error.
pub open spec fn fold_records(buf: Seq<u8>, rs: int, i: int, end: int, m: StationMap) -> Result<StationMap, int>
    decreases end - i,
{
    if i >= end {
        if rs < end {
            match record_of(buf.subrange(rs, end)) {
                Some((name, t)) => Ok(observe(m, name, t)),
                None => Err(rs),
            }
        } else {
            Ok(m)
        }
    } else if buf[i] == TERMINATOR {
        if rs < i {
            match record_of(buf.subrange(rs, i)) {
                Some((name, t)) => fold_records(buf, i + 1, i + 1, end, observe(m, name, t)),
                None => Err(rs),
            }
        } else {
            fold_records(buf, i + 1, i + 1, end, m)
        }
    } else {
        fold_records(buf, rs, i + 1, end, m)
    }
}

/// The local mapping of the byte range `start..end` of `buf`.
pub open spec fn fold_range(buf: Seq<u8>, start: int, end: int) -> Result<StationMap, int> {
    fold_records(buf, start, start, end, Map::empty())
}

/// Like `fold_records`, but passing over malformed records: the statistics of
/// every well-formed record from `i` on, folded into `m`.
pub open spec fn tally_records(buf: Seq<u8>, rs: int, i: int, end: int, m: StationMap) -> StationMap
    decreases end - i,
{
    if i >= end {
        if rs < end {
            match record_of(buf.subrange(rs, end)) {
                Some((name, t)) => observe(m, name, t),
                None => m,
            }
        } else {
            m
        }
    } else if buf[i] == TERMINATOR {
        if rs < i {
            match record_of(buf.subrange(rs, i)) {
                Some((name, t)) => tally_records(buf, i + 1, i + 1, end, observe(m, name, t)),
                None => tally_records(buf, i + 1, i + 1, end, m),
            }
        } else {
            tally_records(buf, i + 1, i + 1, end, m)
        }
    } else {
        tally_records(buf, rs, i + 1, end, m)
    }
}

/// Statistics of the well-formed records of `start..end`.
pub open spec fn tally_range(buf: Seq<u8>, start: int, end: int) -> StationMap {
    tally_records(buf, start, start, end, Map::empty())
}

/// Every station of `m` has at most `u32::MAX` observations.
pub open spec fn counts_fit(m: StationMap) -> bool {
    forall|k: Seq<u8>| #[trigger] m.contains_key(k) ==> m[k].count <= u32::MAX
}

/// Every station of `m` has at least one observation.
pub open spec fn counts_positive(m: StationMap) -> bool {
    forall|k: Seq<u8>| #[trigger] m.contains_key(k) ==> m[k].count >= 1
}

/// No station has more than `u32::MAX` well-formed records in `buf`.
pub open spec fn station_counts_fit(buf: Seq<u8>) -> bool {
    counts_fit(tally_range(buf, 0, buf.len() as int))
}

pub proof fn lemma_tally_positive(buf: Seq<u8>, rs: int, i: int, end: int, m: StationMap)
    requires
        counts_positive(m),
    ensures
        counts_positive(tally_records(buf, rs, i, end, m)),
    decreases end - i,
{
    if i >= end {
    } else if buf[i] == TERMINATOR {
        if rs < i {
            if let Some((name, t)) = record_of(buf.subrange(rs, i)) {
                lemma_tally_positive(buf, i + 1, i + 1, end, observe(m, name, t));
            } else {
                lemma_tally_positive(buf, i + 1, i + 1, end, m);
            }
        } else {
            lemma_tally_positive(buf, i + 1, i + 1, end, m);
        }
    } else {
        lemma_tally_positive(buf, rs, i + 1, end, m);
    }
}

pub proof fn lemma_tally_accumulates(buf: Seq<u8>, rs: int, i: int, end: int, m: StationMap)
    ensures
        tally_records(buf, rs, i, end, m) == merge_maps(m, tally_records(buf, rs, i, end, Map::empty())),
    decreases end - i,
{
    let e = Map::<Seq<u8>, Summary>::empty();
    lemma_merge_empty(m);
    if i >= end {
        if rs < end {
            if let Some((name, t)) = record_of(buf.subrange(rs, end)) {
                lemma_absorb_is_merge(m, name, single(t));
                lemma_absorb_is_merge(e, name, single(t));
                lemma_merge_empty(e.insert(name, single(t)));
            }
        }
    } else if buf[i] == TERMINATOR {
        if rs < i {
            if let Some((name, t)) = record_of(buf.subrange(rs, i)) {
                let s = e.insert(name, single(t));
                lemma_tally_accumulates(buf, i + 1, i + 1, end, observe(m, name, t));
                lemma_tally_accumulates(buf, i + 1, i + 1, end, observe(e, name, t));
                lemma_absorb_is_merge(m, name, single(t));
                lemma_absorb_is_merge(e, name, single(t));
                lemma_merge_empty(s);
                lemma_merge_associates(m, s, tally_records(buf, i + 1, i + 1, end, e));
            } else {
                lemma_tally_accumulates(buf, i + 1, i + 1, end, m);
            }
        } else {
            lemma_tally_accumulates(buf, i + 1, i + 1, end, m);
        }
    } else {
        lemma_tally_accumulates(buf, rs, i + 1, end, m);
    }
}

pub proof fn lemma_tally_splits(buf: Seq<u8>, rs: int, i: int, b: int, end: int, m: StationMap)
    requires
        0 <= rs <= i <= b <= end <= buf.len(),
        b == end || (i == b && rs == b) || (i < b && buf[b - 1] == TERMINATOR),
    ensures
        tally_records(buf, rs, i, end, m) == tally_records(buf, b, b, end, tally_records(buf, rs, i, b, m)),
    decreases b - i,
{
    if b == end {
    } else if i == b {
    } else if buf[i] == TERMINATOR {
        if rs < i {
            if let Some((name, t)) = record_of(buf.subrange(rs, i)) {
                lemma_tally_splits(buf, i + 1, i + 1, b, end, observe(m, name, t));
            } else {
                lemma_tally_splits(buf, i + 1, i + 1, b, end, m);
            }
        } else {
            lemma_tally_splits(buf, i + 1, i + 1, b, end, m);
        }
    } else {
        lemma_tally_splits(buf, rs, i + 1, b, end, m);
    }
}

/// Where no record is malformed, folding and tallying agree.
pub proof fn lemma_fold_is_tally(buf: Seq<u8>, rs: int, i: int, end: int, m: StationMap)
    ensures
        fold_records(buf, rs, i, end, m) matches Ok(x) ==> x == tally_records(buf, rs, i, end, m),
    decreases end - i,
{
    if i >= end {
    } else if buf[i] == TERMINATOR {
        if rs < i {
            if let Some((name, t)) = record_of(buf.subrange(rs, i)) {
                lemma_fold_is_tally(buf, i + 1, i + 1, end, observe(m, name, t));
            }
        } else {
            lemma_fold_is_tally(buf, i + 1, i + 1, end, m);
        }
    } else {
        lemma_fold_is_tally(buf, rs, i + 1, end, m);
    }
}

/// Tallying on from `m` keeps every station of `m`, with no fewer observations.
pub proof fn lemma_tally_grows(buf: Seq<u8>, rs: int, i: int, end: int, m: StationMap)
    ensures
        forall|k: Seq<u8>| #[trigger] m.contains_key(k) ==> tally_records(buf, rs, i, end, m).contains_key(k)
            && tally_records(buf, rs, i, end, m)[k].count >= m[k].count,
{
    lemma_tally_accumulates(buf, rs, i, end, m);
    lemma_tally_positive(buf, rs, i, end, Map::empty());
}

/// The tally of `a..c` is the merge of those of `a..b` and `b..c`, for any
/// boundary `b` between them.
pub proof fn lemma_tally_concat(buf: Seq<u8>, a: int, b: int, c: int)
    requires
        0 <= a <= b <= c <= buf.len(),
        is_boundary(buf, b),
    ensures
        tally_range(buf, a, c) == merge_maps(tally_range(buf, a, b), tally_range(buf, b, c)),
{
    lemma_tally_splits(buf, a, a, b, c, Map::empty());
    lemma_tally_accumulates(buf, b, b, c, tally_range(buf, a, b));
}

/// Each part of a merge of non-empty statistics has no more observations than the merge.
pub proof fn lemma_counts_fit_parts(x: StationMap, y: StationMap)
    requires
        counts_fit(merge_maps(x, y)),
        counts_positive(x),
        counts_positive(y),
    ensures
        counts_fit(x),
        counts_fit(y),
{
    assert forall|k: Seq<u8>| #[trigger] x.contains_key(k) implies x[k].count <= u32::MAX by {
        assert(merge_maps(x, y).contains_key(k));
    }
    assert forall|k: Seq<u8>| #[trigger] y.contains_key(k) implies y[k].count <= u32::MAX by {
        assert(merge_maps(x, y).contains_key(k));
    }
}

/// A range of a buffer whose stations fit has stations that fit, when it
/// starts and ends at boundaries.
pub proof fn lemma_range_counts_fit(buf: Seq<u8>, a: int, b: int)
    requires
        station_counts_fit(buf),
        0 <= a <= b <= buf.len(),
        is_boundary(buf, a),
        is_boundary(buf, b),
    ensures
        counts_fit(tally_range(buf, a, b)),
{
    let n = buf.len() as int;
    let e = Map::<Seq<u8>, Summary>::empty();
    lemma_tally_concat(buf, 0, a, n);
    lemma_tally_concat(buf, a, b, n);
    lemma_tally_positive(buf, 0, 0, a, e);
    lemma_tally_positive(buf, a, a, n, e);
    lemma_tally_positive(buf, a, a, b, e);
    lemma_tally_positive(buf, b, b, n, e);
    lemma_counts_fit_parts(tally_range(buf, 0, a), tally_range(buf, a, n));
    lemma_counts_fit_parts(tally_range(buf, a, b), tally_range(buf, b, n));
}

/// Folding into a non-empty mapping is merging into it what folding into the
/// empty one gives.
pub proof fn lemma_fold_accumulates(buf: Seq<u8>, rs: int, i: int, end: int, m: StationMap)
    ensures
        fold_records(buf, rs, i, end, m) == match fold_records(buf, rs, i, end, Map::empty()) {
            Ok(x) => Ok(merge_maps(m, x)),
            Err(e) => Err(e),
        },
    decreases end - i,
{
    let e = Map::<Seq<u8>, Summary>::empty();
    lemma_merge_empty(m);
    if i >= end {
        if rs < end {
            if let Some((name, t)) = record_of(buf.subrange(rs, end)) {
                lemma_absorb_is_merge(m, name, single(t));
                lemma_absorb_is_merge(e, name, single(t));
                lemma_merge_empty(e.insert(name, single(t)));
            }
        }
    } else if buf[i] == TERMINATOR {
        if rs < i {
            if let Some((name, t)) = record_of(buf.subrange(rs, i)) {
                let s = e.insert(name, single(t));
                lemma_fold_accumulates(buf, i + 1, i + 1, end, observe(m, name, t));
                lemma_fold_accumulates(buf, i + 1, i + 1, end, observe(e, name, t));
                lemma_absorb_is_merge(m, name, single(t));
                lemma_absorb_is_merge(e, name, single(t));
                lemma_merge_empty(s);
                if let Ok(x) = fold_records(buf, i + 1, i + 1, end, e) {
                    lemma_merge_associates(m, s, x);
                }
            }
        } else {
            lemma_fold_accumulates(buf, i + 1, i + 1, end, m);
        }
    } else {
        lemma_fold_accumulates(buf, rs, i + 1, end, m);
    }
}

/// Scanning up to `end` is scanning up to a record boundary `b`, then on from `b`.
pub proof fn lemma_fold_splits(buf: Seq<u8>, rs: int, i: int, b: int, end: int, m: StationMap)
    requires
        0 <= rs <= i <= b <= end <= buf.len(),
        b == end || (i == b && rs == b) || (i < b && buf[b - 1] == TERMINATOR),
    ensures
        fold_records(buf, rs, i, end, m) == match fold_records(buf, rs, i, b, m) {
            Ok(m1) => fold_records(buf, b, b, end, m1),
            Err(e) => Err(e),
        },
    decreases b - i,
{
    if b == end {
        assert(fold_records(buf, b, b, end, m) == Ok::<StationMap, int>(m));
        if let Ok(m1) = fold_records(buf, rs, i, b, m) {
            assert(fold_records(buf, b, b, end, m1) == Ok::<StationMap, int>(m1));
        }
    } else if i == b {
    } else if buf[i] == TERMINATOR {
        if rs < i {
            if let Some((name, t)) = record_of(buf.subrange(rs, i)) {
                lemma_fold_splits(buf, i + 1, i + 1, b, end, observe(m, name, t));
            }
        } else {
            lemma_fold_splits(buf, i + 1, i + 1, b, end, m);
        }
    } else {
        lemma_fold_splits(buf, rs, i + 1, b, end, m);
    }
}

/// The mapping of `a..c` is the merge of those of `a..b` and `b..c`, for any
/// boundary `b` between them; a malformed record in `a..b` is reported first.
pub proof fn lemma_fold_concat(buf: Seq<u8>, a: int, b: int, c: int)
    requires
        0 <= a <= b <= c <= buf.len(),
        is_boundary(buf, b),
    ensures
        fold_range(buf, a, c) == match fold_range(buf, a, b) {
            Ok(m1) => match fold_range(buf, b, c) {
                Ok(m2) => Ok(merge_maps(m1, m2)),
                Err(e) => Err(e),
            },
            Err(e) => Err(e),
        },
{
    lemma_fold_splits(buf, a, a, b, c, Map::empty());
    if let Ok(m1) = fold_range(buf, a, b) {
        lemma_fold_accumulates(buf, b, b, c, m1);
    }
}

/// Parses the record `buf[rs..stop]` and records it in `table`.
fn take_record(table: &mut StationTable, buf: &[u8], rs: usize, stop: usize) -> (r: Result<(), SummaryError>)
    requires
        old(table).wf(),
        rs < stop <= buf@.len(),
    ensures
        final(table).wf(),
        match record_of(buf@.subrange(rs as int, stop as int)) {
            Some((name, t)) => (r is Ok && final(table)@ == observe(old(table)@, name, t)) || (r
                == Err::<(), SummaryError>(SummaryError::TooManyRecords) && old(table)@.contains_key(name)
                && old(table)@[name].count == u32::MAX),
            None => r == Err::<(), SummaryError>(SummaryError::MalformedRecord { offset: rs }),
        },
{
    let rec = &buf[rs..stop];
    match parse_record(rec) {
        Some((name, t)) => {
            proof {
                let k = choose|k: int| first_separator(rec@, k);
                lemma_temperature_bounds(rec@.subrange(k + 1, rec@.len() as int));
            }
            if table.try_record(name, t) {
                Ok(())
            } else {
                Err(SummaryError::TooManyRecords)
            }
        },
        None => Err(SummaryError::MalformedRecord { offset: rs }),
    }
}

/// Aggregates the records of `buf[start..end]` into a fresh table. Where no
/// station has more than `u32::MAX` records in the range, the result is
/// exactly `fold_range`.
pub fn aggregate_range(buf: &[u8], start: usize, end: usize) -> (r: Result<StationTable, SummaryError>)
    requires
        start <= end <= buf@.len(),
    ensures
        r matches Ok(t) ==> t.wf() && fold_range(buf@, start as int, end as int) == Ok::<StationMap, int>(t@),
        r matches Err(SummaryError::MalformedRecord { offset }) ==> fold_range(buf@, start as int, end as int)
            == Err::<StationMap, int>(offset as int),
        r matches Err(SummaryError::TooManyRecords) ==> !counts_fit(tally_range(buf@, start as int, end as int)),
{
    let ghost whole = tally_range(buf@, start as int, end as int);
    let mut table = StationTable::new();
    let mut rs: usize = start;
    let mut i: usize = start;
    while i < end
        invariant
            start <= rs <= i <= end <= buf@.len(),
            table.wf(),
            whole == tally_range(buf@, start as int, end as int),
            whole == tally_records(buf@, rs as int, i as int, end as int, table@),
            fold_range(buf@, start as int, end as int) == fold_records(buf@, rs as int, i as int, end as int, table@),
        decreases end - i,
    {
        if buf[i] == TERMINATOR {
            if rs < i {
                proof {
                    if let Some((name, t)) = record_of(buf@.subrange(rs as int, i as int)) {
                        let next = observe(table@, name, t);
                        lemma_tally_grows(buf@, i + 1, i + 1, end as int, next);
                        assert(whole == tally_records(buf@, i + 1, i + 1, end as int, next));
                        assert(next.contains_key(name));
                        assert(whole.contains_key(name));
                        if table@.contains_key(name) {
                            assert(next[name].count == table@[name].count + 1);
                            assert(whole[name].count >= table@[name].count + 1);
                        }
                        assert(counts_fit(whole) ==> (table@.contains_key(name) ==> table@[name].count < u32::MAX));
                    }
                }
                let ghost before = table@;
                let step = take_record(&mut table, buf, rs, i);
                if let Err(e) = step {
                    proof {
                        if e is TooManyRecords {
                            let (name, t) = record_of(buf@.subrange(rs as int, i as int))->Some_0;
                            assert(before.contains_key(name) && before[name].count == u32::MAX);
                        }
                        assert(e is TooManyRecords ==> !counts_fit(whole));
                    }
                    return Err(e);
                }
            }
            rs = i + 1;
        }
        i += 1;
    }
    if rs < end {
        proof {
            if let Some((name, t)) = record_of(buf@.subrange(rs as int, end as int)) {
                assert(whole == observe(table@, name, t));
                assert(whole.contains_key(name));
            }
        }
        take_record(&mut table, buf, rs, end)?;
    }
    Ok(table)
}

} // verus!
