//! A station table: station names kept in strictly increasing byte order,
//! each with its running statistics.
use vstd::prelude::*;
use crate::order::{name_lt, compare_bytes, lemma_lt_irreflexive, lemma_lt_transitive};
use crate::stats::{Summary, StationMap, summary_wf, single, combine, absorb, observe, merge_maps, map_wf, lemma_merge_empty};

verus! {

/// Running statistics of one station, in tenths of a degree.
#[derive(Clone, Copy, Debug, PartialEq, Eq)]
pub struct StationStat {
    pub minimum: i32,
    pub maximum: i32,
    pub sum: i64,
    pub count: u32,
}

impl View for StationStat {
    type V = Summary;

    open spec fn view(&self) -> Summary {
        Summary {
            minimum: self.minimum as int,
            maximum: self.maximum as int,
            sum: self.sum as int,
            count: self.count as int,
        }
    }
}

impl StationStat {
    pub open spec fn wf(&self) -> bool {
        summary_wf(self@)
    }

    /// Statistics of a single observation.
    pub fn single(t: i32) -> (r: StationStat)
        requires
            -999 <= t <= 999,
        ensures
            r@ == single(t as int),
            r.wf(),
    {
        StationStat { minimum: t, maximum: t, sum: t as i64, count: 1 }
    }

    /// Statistics of both groups together.
    pub fn combine(&self, other: &StationStat) -> (r: StationStat)
        requires
            self.wf(),
            other.wf(),
            self.count + other.count <= u32::MAX,
        ensures
            r@ == combine(self@, other@),
            r.wf(),
    {
        StationStat {
            minimum: if self.minimum <= other.minimum { self.minimum } else { other.minimum },
            maximum: if self.maximum >= other.maximum { self.maximum } else { other.maximum },
            sum: self.sum + other.sum,
            count: self.count + other.count,
        }
    }
}

pub struct StationEntry {
    pub name: Vec<u8>,
    pub stat: StationStat,
}

/// Names strictly increasing, hence distinct.
pub open spec fn entries_sorted(s: Seq<StationEntry>) -> bool {
    forall|i: int, j: int| 0 <= i < j < s.len() ==> name_lt(#[trigger] s[i].name@, #[trigger] s[j].name@)
}

pub open spec fn has_name(s: Seq<StationEntry>, k: Seq<u8>, i: int) -> bool {
    0 <= i < s.len() && s[i].name@ == k
}

/// The mapping that a sequence of entries with distinct names stands for.
pub open spec fn entries_map(s: Seq<StationEntry>) -> StationMap {
    Map::new(
        |k: Seq<u8>| exists|i: int| has_name(s, k, i),
        |k: Seq<u8>| s[choose|i: int| has_name(s, k, i)].stat@,
    )
}

pub proof fn lemma_entries_map_at(s: Seq<StationEntry>, i: int)
    requires
        entries_sorted(s),
        0 <= i < s.len(),
    ensures
        entries_map(s).contains_key(s[i].name@),
        entries_map(s)[s[i].name@] == s[i].stat@,
{
    let k = s[i].name@;
    assert(has_name(s, k, i));
    let j = choose|j: int| has_name(s, k, j);
    if j != i {
        lemma_lt_irreflexive(k);
        if j < i {
            assert(name_lt(s[j].name@, s[i].name@));
        } else {
            assert(name_lt(s[i].name@, s[j].name@));
        }
    }
}

pub proof fn lemma_entries_map_all(s: Seq<StationEntry>)
    requires
        entries_sorted(s),
    ensures
        forall|i: int|
            #![trigger s[i]]
            0 <= i < s.len() ==> entries_map(s).contains_key(s[i].name@) && entries_map(s)[s[i].name@]
                == s[i].stat@,
{
    assert forall|i: int|
        #![trigger s[i]]
        0 <= i < s.len() implies entries_map(s).contains_key(s[i].name@) && entries_map(s)[s[i].name@]
            == s[i].stat@ by {
        lemma_entries_map_at(s, i);
    }
}

pub proof fn lemma_entries_map_update(s: Seq<StationEntry>, i: int, e: StationEntry)
    requires
        entries_sorted(s),
        0 <= i < s.len(),
        e.name@ == s[i].name@,
    ensures
        entries_sorted(s.update(i, e)),
        entries_map(s.update(i, e)) == entries_map(s).insert(e.name@, e.stat@),
{
    let t = s.update(i, e);
    assert(entries_sorted(t)) by {
        assert forall|a: int, b: int| 0 <= a < b < t.len() implies name_lt(#[trigger] t[a].name@, #[trigger] t[b].name@) by {
            assert(name_lt(s[a].name@, s[b].name@));
        }
    }
    lemma_entries_map_all(s);
    lemma_entries_map_all(t);
    let m = entries_map(s).insert(e.name@, e.stat@);
    assert forall|k: Seq<u8>| #[trigger] entries_map(t).contains_key(k) <==> m.contains_key(k) by {
        if entries_map(t).contains_key(k) {
            let j = choose|j: int| has_name(t, k, j);
            assert(has_name(t, k, j));
            if j != i {
                assert(has_name(s, k, j));
            }
        }
        if entries_map(s).contains_key(k) {
            let j = choose|j: int| has_name(s, k, j);
            assert(has_name(s, k, j));
            assert(has_name(t, k, j));
        }
    }
    assert forall|k: Seq<u8>| #[trigger] entries_map(t).contains_key(k) implies entries_map(t)[k] == m[k] by {
        let j = choose|j: int| has_name(t, k, j);
        assert(t[j].name@ == k);
        if j != i {
            assert(t[j] == s[j]);
            lemma_lt_irreflexive(k);
            if j < i {
                assert(name_lt(s[j].name@, s[i].name@));
            } else {
                assert(name_lt(s[i].name@, s[j].name@));
            }
        }
    }
    assert(entries_map(t) =~= m);
}

pub proof fn lemma_entries_map_insert(s: Seq<StationEntry>, p: int, e: StationEntry)
    requires
        entries_sorted(s),
        0 <= p <= s.len(),
        forall|j: int| 0 <= j < p ==> name_lt(#[trigger] s[j].name@, e.name@),
        forall|j: int| p <= j < s.len() ==> name_lt(e.name@, #[trigger] s[j].name@),
    ensures
        entries_sorted(s.insert(p, e)),
        entries_map(s.insert(p, e)) == entries_map(s).insert(e.name@, e.stat@),
{
    let t = s.insert(p, e);
    assert(entries_sorted(t)) by {
        assert forall|a: int, b: int| 0 <= a < b < t.len() implies name_lt(#[trigger] t[a].name@, #[trigger] t[b].name@) by {
            if a < p && b < p {
                assert(name_lt(s[a].name@, s[b].name@));
            } else if a < p && b == p {
            } else if a < p {
                lemma_lt_transitive(s[a].name@, e.name@, s[b - 1].name@);
            } else if a == p {
                assert(name_lt(e.name@, s[b - 1].name@));
            } else {
                assert(name_lt(s[a - 1].name@, s[b - 1].name@));
            }
        }
    }
    lemma_entries_map_all(s);
    lemma_entries_map_all(t);
    let m = entries_map(s).insert(e.name@, e.stat@);
    assert forall|k: Seq<u8>| #[trigger] entries_map(t).contains_key(k) <==> m.contains_key(k) by {
        if entries_map(t).contains_key(k) {
            let j = choose|j: int| has_name(t, k, j);
            assert(has_name(t, k, j));
            if j < p {
                assert(has_name(s, k, j));
            } else if j > p {
                assert(has_name(s, k, j - 1));
            }
        }
        if entries_map(s).contains_key(k) {
            let j = choose|j: int| has_name(s, k, j);
            assert(has_name(s, k, j));
            if j < p {
                assert(has_name(t, k, j));
            } else {
                assert(has_name(t, k, j + 1));
            }
        }
        if k == e.name@ {
            assert(has_name(t, k, p));
        }
    }
    assert forall|k: Seq<u8>| #[trigger] entries_map(t).contains_key(k) implies entries_map(t)[k] == m[k] by {
        let j = choose|j: int| has_name(t, k, j);
        assert(t[j].name@ == k);
        if j < p {
            assert(t[j] == s[j]);
            lemma_lt_irreflexive(k);
        } else if j > p {
            assert(t[j] == s[j - 1]);
            lemma_lt_irreflexive(k);
        }
    }
    assert(entries_map(t) =~= m);
}

pub proof fn lemma_merge_insert(a: StationMap, b: StationMap, k: Seq<u8>, v: Summary)
    requires
        !b.contains_key(k),
    ensures
        merge_maps(a, b.insert(k, v)) == absorb(merge_maps(a, b), k, v),
{
    assert(merge_maps(a, b.insert(k, v)) =~= absorb(merge_maps(a, b), k, v));
}

/// Station table; `entries` are kept sorted by name.
pub struct StationTable {
    pub entries: Vec<StationEntry>,
}

impl View for StationTable {
    type V = StationMap;

    open spec fn view(&self) -> StationMap {
        entries_map(self.entries@)
    }
}

impl StationTable {
    pub open spec fn wf(&self) -> bool {
        &&& entries_sorted(self.entries@)
        &&& forall|i: int| 0 <= i < self.entries@.len() ==> (#[trigger] self.entries@[i]).stat.wf()
    }

    pub proof fn lemma_view_wf(&self)
        requires
            self.wf(),
        ensures
            map_wf(self@),
    {
        lemma_entries_map_all(self.entries@);
        assert forall|k: Seq<u8>| #[trigger] self@.contains_key(k) implies summary_wf(self@[k]) by {
            let i = choose|i: int| has_name(self.entries@, k, i);
            assert(self.entries@[i].stat.wf());
        }
    }

    /// An empty table.
    pub fn new() -> (r: StationTable)
        ensures
            r.wf(),
            r@ == Map::<Seq<u8>, Summary>::empty(),
    {
        let r = StationTable { entries: Vec::new() };
        assert(r@ =~= Map::<Seq<u8>, Summary>::empty());
        r
    }

    /// Number of stations.
    pub fn len(&self) -> (r: usize)
        ensures
            r == self.entries@.len(),
    {
        self.entries.len()
    }

    /// Binary search: `Ok` with the position of `name`, or `Err` with the
    /// position where it would be inserted.
    fn find(&self, name: &[u8]) -> (r: Result<usize, usize>)
        requires
            self.wf(),
        ensures
            r matches Ok(i) ==> i < self.entries@.len() && self.entries@[i as int].name@ == name@,
            r matches Err(p) ==> p <= self.entries@.len()
                && (forall|j: int| 0 <= j < p ==> name_lt(#[trigger] self.entries@[j].name@, name@))
                && (forall|j: int| p <= j < self.entries@.len() ==> name_lt(name@, #[trigger] self.entries@[j].name@)),
    {
        let mut lo: usize = 0;
        let mut hi: usize = self.entries.len();
        while lo < hi
            invariant
                self.wf(),
                lo <= hi <= self.entries@.len(),
                forall|j: int| 0 <= j < lo ==> name_lt(#[trigger] self.entries@[j].name@, name@),
                forall|j: int| hi <= j < self.entries@.len() ==> name_lt(name@, #[trigger] self.entries@[j].name@),
            decreases hi - lo,
        {
            let mid = lo + (hi - lo) / 2;
            let c = compare_bytes(self.entries[mid].name.as_slice(), name);
            if c == 0 {
                return Ok(mid);
            } else if c < 0 {
                proof {
                    assert forall|j: int| 0 <= j <= mid implies name_lt(#[trigger] self.entries@[j].name@, name@) by {
                        if j < mid {
                            assert(name_lt(self.entries@[j].name@, self.entries@[mid as int].name@));
                            lemma_lt_transitive(self.entries@[j].name@, self.entries@[mid as int].name@, name@);
                        }
                    }
                }
                lo = mid + 1;
            } else {
                proof {
                    assert forall|j: int| mid <= j < self.entries@.len() implies name_lt(name@, #[trigger] self.entries@[j].name@) by {
                        if j > mid {
                            assert(name_lt(self.entries@[mid as int].name@, self.entries@[j].name@));
                            lemma_lt_transitive(name@, self.entries@[mid as int].name@, self.entries@[j].name@);
                        }
                    }
                }
                hi = mid;
            }
        }
        Err(lo)
    }

    /// Adds the statistics `stat` to those of station `name`.
    pub fn add(&mut self, name: &[u8], stat: StationStat)
        requires
            old(self).wf(),
            stat.wf(),
            old(self)@.contains_key(name@) ==> old(self)@[name@].count + stat.count <= u32::MAX,
        ensures
            final(self).wf(),
            final(self)@ == absorb(old(self)@, name@, stat@),
    {
        let found = self.find(name);
        self.add_found(name, stat, found);
    }

    /// Records one temperature observed at station `name`, unless the
    /// station already has `u32::MAX` observations; then the table is left
    /// as it is and `false` comes back.
    pub fn try_record(&mut self, name: &[u8], t: i32) -> (ok: bool)
        requires
            old(self).wf(),
            -999 <= t <= 999,
        ensures
            ok == !(old(self)@.contains_key(name@) && old(self)@[name@].count == u32::MAX),
            final(self).wf(),
            ok ==> final(self)@ == observe(old(self)@, name@, t as int),
            !ok ==> final(self)@ == old(self)@,
    {
        proof {
            lemma_entries_map_all(self.entries@);
        }
        let found = self.find(name);
        match found {
            Ok(i) => {
                if self.entries[i].stat.count == u32::MAX {
                    return false;
                }
            },
            Err(p) => {
                proof {
                    if self@.contains_key(name@) {
                        let i = choose|i: int| has_name(self.entries@, name@, i);
                        lemma_lt_irreflexive(name@);
                        if i < p {
                            assert(name_lt(self.entries@[i].name@, name@));
                        } else {
                            assert(name_lt(name@, self.entries@[i].name@));
                        }
                    }
                }
            },
        }
        self.add_found(name, StationStat::single(t), found);
        true
    }

    fn add_found(&mut self, name: &[u8], stat: StationStat, found: Result<usize, usize>)
        requires
            old(self).wf(),
            found matches Ok(i) ==> i < old(self).entries@.len() && old(self).entries@[i as int].name@ == name@,
            found matches Err(p) ==> p <= old(self).entries@.len()
                && (forall|j: int| 0 <= j < p ==> name_lt(#[trigger] old(self).entries@[j].name@, name@))
                && (forall|j: int| p <= j < old(self).entries@.len() ==> name_lt(name@, #[trigger] old(self).entries@[j].name@)),
            stat.wf(),
            old(self)@.contains_key(name@) ==> old(self)@[name@].count + stat.count <= u32::MAX,
        ensures
            final(self).wf(),
            final(self)@ == absorb(old(self)@, name@, stat@),
    {
        proof {
            lemma_entries_map_all(self.entries@);
        }
        match found {
            Ok(i) => {
                let old_stat = self.entries[i].stat;
                let new_stat = old_stat.combine(&stat);
                proof {
                    lemma_entries_map_update(
                        self.entries@,
                        i as int,
                        StationEntry { name: self.entries@[i as int].name, stat: new_stat },
                    );
                }
                self.entries[i].stat = new_stat;
            },
            Err(p) => {
                let e = StationEntry { name: vstd::slice::slice_to_vec(name), stat };
                proof {
                    lemma_entries_map_insert(self.entries@, p as int, e);
                    if self@.contains_key(name@) {
                        let i = choose|i: int| has_name(self.entries@, name@, i);
                        lemma_lt_irreflexive(name@);
                        if i < p {
                            assert(name_lt(self.entries@[i].name@, name@));
                        } else {
                            assert(name_lt(name@, self.entries@[i].name@));
                        }
                    }
                }
                self.entries.insert(p, e);
            },
        }
    }

    /// Merges `other` into this table when no station's count would pass
    /// `u32::MAX`; otherwise leaves the table as it is and returns `false`.
    pub fn try_merge_from(&mut self, other: &StationTable) -> (ok: bool)
        requires
            old(self).wf(),
            other.wf(),
        ensures
            ok == forall|k: Seq<u8>|
                old(self)@.contains_key(k) && other@.contains_key(k) ==> #[trigger] old(self)@[k].count
                    + other@[k].count <= u32::MAX,
            final(self).wf(),
            ok ==> final(self)@ == merge_maps(old(self)@, other@),
            !ok ==> final(self)@ == old(self)@,
    {
        let ghost os = other.entries@;
        proof {
            lemma_entries_map_all(os);
            lemma_entries_map_all(self.entries@);
        }
        let mut i: usize = 0;
        while i < other.entries.len()
            invariant
                self.wf(),
                other.wf(),
                os == other.entries@,
                i <= os.len(),
                forall|j: int|
                    #![trigger os[j]]
                    0 <= j < os.len() ==> other@.contains_key(os[j].name@) && other@[os[j].name@] == os[j].stat@,
                forall|j: int|
                    #![trigger os[j]]
                    0 <= j < i ==> self@.contains_key(os[j].name@) ==> self@[os[j].name@].count + os[j].stat.count
                        <= u32::MAX,
            decreases os.len() - i,
        {
            let e = &other.entries[i];
            if let Some(mine) = self.get(e.name.as_slice()) {
                if mine.count as u64 + e.stat.count as u64 > u32::MAX as u64 {
                    return false;
                }
            }
            i += 1;
        }
        proof {
            assert forall|k: Seq<u8>|
                self@.contains_key(k) && other@.contains_key(k) implies #[trigger] self@[k].count + other@[k].count
                <= u32::MAX by {
                let j = choose|j: int| has_name(os, k, j);
                assert(os[j].name@ == k);
            }
        }
        self.merge_from(other);
        true
    }

    /// Merges the statistics of every station of `other` into this table.
    pub fn merge_from(&mut self, other: &StationTable)
        requires
            old(self).wf(),
            other.wf(),
            forall|k: Seq<u8>|
                old(self)@.contains_key(k) && other@.contains_key(k) ==> #[trigger] old(self)@[k].count
                    + other@[k].count <= u32::MAX,
        ensures
            final(self).wf(),
            final(self)@ == merge_maps(old(self)@, other@),
    {
        let ghost start = self@;
        let ghost os = other.entries@;
        proof {
            lemma_entries_map_all(os);
            assert(entries_map(os.take(0)) =~= Map::<Seq<u8>, Summary>::empty());
            lemma_merge_empty(start);
        }
        let mut i: usize = 0;
        while i < other.entries.len()
            invariant
                self.wf(),
                other.wf(),
                os == other.entries@,
                i <= os.len(),
                self@ == merge_maps(start, entries_map(os.take(i as int))),
                forall|k: Seq<u8>|
                    start.contains_key(k) && other@.contains_key(k) ==> #[trigger] start[k].count
                        + other@[k].count <= u32::MAX,
                forall|j: int|
                    #![trigger os[j]]
                    0 <= j < os.len() ==> other@.contains_key(os[j].name@) && other@[os[j].name@] == os[j].stat@,
            decreases os.len() - i,
        {
            let e = &other.entries[i];
            proof {
                let pre = os.take(i as int);
                assert(entries_sorted(pre));
                assert forall|j: int| 0 <= j < i implies name_lt(#[trigger] pre[j].name@, os[i as int].name@) by {
                    assert(pre[j] == os[j]);
                }
                lemma_entries_map_insert(pre, i as int, os[i as int]);
                assert(pre.insert(i as int, os[i as int]) =~= os.take(i + 1));
                if entries_map(pre).contains_key(e.name@) {
                    let j = choose|j: int| has_name(pre, e.name@, j);
                    assert(name_lt(os[j].name@, os[i as int].name@));
                    lemma_lt_irreflexive(e.name@);
                }
                lemma_merge_insert(start, entries_map(pre), e.name@, e.stat@);
            }
            self.add(e.name.as_slice(), e.stat);
            i += 1;
        }
        proof {
            assert(os.take(os.len() as int) =~= os);
        }
    }

    /// Records one temperature observed at station `name`.
    pub fn record(&mut self, name: &[u8], t: i32)
        requires
            old(self).wf(),
            -999 <= t <= 999,
            old(self)@.contains_key(name@) ==> old(self)@[name@].count < u32::MAX,
        ensures
            final(self).wf(),
            final(self)@ == observe(old(self)@, name@, t as int),
    {
        self.add(name, StationStat::single(t));
    }

    /// The statistics of station `name`, if it has any.
    pub fn get(&self, name: &[u8]) -> (r: Option<StationStat>)
        requires
            self.wf(),
        ensures
            r matches Some(s) ==> self@.contains_key(name@) && s@ == self@[name@],
            r is None ==> !self@.contains_key(name@),
    {
        proof {
            lemma_entries_map_all(self.entries@);
        }
        match self.find(name) {
            Ok(i) => Some(self.entries[i].stat),
            Err(p) => {
                proof {
                    if self@.contains_key(name@) {
                        let i = choose|i: int| has_name(self.entries@, name@, i);
                        lemma_lt_irreflexive(name@);
                        if i < p {
                            assert(name_lt(self.entries@[i].name@, name@));
                        } else {
                            assert(name_lt(name@, self.entries@[i].name@));
                        }
                    }
                }
                None
            },
        }
    }
}

} // verus!
