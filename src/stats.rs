//! Mathematical model of per-station statistics and of mappings from
//! station names to them.
use vstd::prelude::*;

verus! {

/// Statistics of the temperatures seen for one station, in tenths of a degree.
pub ghost struct Summary {
    pub minimum: int,
    pub maximum: int,
    pub sum: int,
    pub count: int,
}

/// Station name (raw bytes) to its statistics.
pub type StationMap = Map<Seq<u8>, Summary>;

pub open spec fn single(t: int) -> Summary {
    Summary { minimum: t, maximum: t, sum: t, count: 1 }
}

pub open spec fn min_int(a: int, b: int) -> int {
    if a <= b { a } else { b }
}

pub open spec fn max_int(a: int, b: int) -> int {
    if a >= b { a } else { b }
}

/// Statistics of the union of two groups of observations.
pub open spec fn combine(a: Summary, b: Summary) -> Summary {
    Summary {
        minimum: min_int(a.minimum, b.minimum),
        maximum: max_int(a.maximum, b.maximum),
        sum: a.sum + b.sum,
        count: a.count + b.count,
    }
}

/// Statistics that some non-empty group of temperatures in `-999..=999` can have.
pub open spec fn summary_wf(s: Summary) -> bool {
    &&& s.count >= 1
    &&& -999 <= s.minimum <= s.maximum <= 999
    &&& -999 * s.count <= s.sum <= 999 * s.count
}

/// Adds the statistics `s` to those of station `name`.
pub open spec fn absorb(m: StationMap, name: Seq<u8>, s: Summary) -> StationMap {
    if m.contains_key(name) {
        m.insert(name, combine(m[name], s))
    } else {
        m.insert(name, s)
    }
}

/// Adds one temperature observed at station `name`.
pub open spec fn observe(m: StationMap, name: Seq<u8>, t: int) -> StationMap {
    absorb(m, name, single(t))
}

/// Key-wise union of two mappings, combining the statistics of shared stations.
pub open spec fn merge_maps(a: StationMap, b: StationMap) -> StationMap {
    Map::new(
        |k: Seq<u8>| a.contains_key(k) || b.contains_key(k),
        |k: Seq<u8>|
            if a.contains_key(k) && b.contains_key(k) {
                combine(a[k], b[k])
            } else if a.contains_key(k) {
                a[k]
            } else {
                b[k]
            },
    )
}

/// Merge of a sequence of local mappings, in the order given.
pub open spec fn merge_all(parts: Seq<StationMap>) -> StationMap
    decreases parts.len(),
{
    if parts.len() == 0 {
        Map::empty()
    } else {
        merge_maps(merge_all(parts.drop_last()), parts.last())
    }
}

pub open spec fn map_wf(m: StationMap) -> bool {
    forall|k: Seq<u8>| #[trigger] m.contains_key(k) ==> summary_wf(m[k])
}

/// Merging mappings does not depend on their order.
pub proof fn lemma_merge_commutes(a: StationMap, b: StationMap)
    ensures
        merge_maps(a, b) == merge_maps(b, a),
{
    assert(merge_maps(a, b) =~= merge_maps(b, a));
}

/// Merging mappings does not depend on their grouping.
pub proof fn lemma_merge_associates(a: StationMap, b: StationMap, c: StationMap)
    ensures
        merge_maps(merge_maps(a, b), c) == merge_maps(a, merge_maps(b, c)),
{
    assert(merge_maps(merge_maps(a, b), c) =~= merge_maps(a, merge_maps(b, c)));
}

pub proof fn lemma_merge_empty(a: StationMap)
    ensures
        merge_maps(a, Map::empty()) == a,
        merge_maps(Map::empty(), a) == a,
{
    assert(merge_maps(a, Map::empty()) =~= a);
    assert(merge_maps(Map::empty(), a) =~= a);
}

/// Absorbing one station's statistics is merging with a one-station mapping.
pub proof fn lemma_absorb_is_merge(m: StationMap, name: Seq<u8>, s: Summary)
    ensures
        absorb(m, name, s) == merge_maps(m, Map::empty().insert(name, s)),
{
    assert(absorb(m, name, s) =~= merge_maps(m, Map::empty().insert(name, s)));
}

} // verus!
