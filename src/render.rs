//! Canonical text of the final mapping: `{name=min/mean/max, ...}`, the
//! entries in byte order of their whole text.
use vstd::prelude::*;
use vstd::seq_lib::{group_to_multiset_ensures, to_multiset_contains, to_multiset_insert};
use vstd::multiset::group_multiset_axioms;
use crate::order::{name_lt, compare_bytes, lemma_lt_irreflexive, lemma_lt_asymmetric, lemma_lt_transitive};
use crate::record::{MINUS, DOT};
use crate::stats::{Summary, StationMap, summary_wf, map_wf};
use crate::table::{StationEntry, StationStat, StationTable, lemma_entries_map_all, has_name};

verus! {

pub open spec fn digit_byte(d: int) -> u8 {
    (48 + d) as u8
}

/// Decimal text of `v` tenths with exactly one fractional digit, for
/// `|v| <= 999`: an optional `-`, one or two integer digits, `.`, one digit.
pub open spec fn tenths_text(v: int) -> Seq<u8> {
    let a = if v < 0 { -v } else { v };
    let whole = a / 10;
    let sign = if v < 0 { seq![MINUS] } else { Seq::<u8>::empty() };
    let digits = if whole >= 10 { seq![digit_byte(whole / 10), digit_byte(whole % 10)] } else { seq![digit_byte(whole)] };
    sign + digits + seq![DOT, digit_byte(a % 10)]
}

/// `a / b`, rounded toward zero.
pub open spec fn div_toward_zero(a: int, b: int) -> int {
    if a >= 0 { a / b } else { -((-a) / b) }
}

pub open spec fn mean_of(s: Summary) -> int {
    div_toward_zero(s.sum, s.count)
}

/// `min/mean/max`.
pub open spec fn stat_text(s: Summary) -> Seq<u8> {
    tenths_text(s.minimum) + seq![47u8] + tenths_text(mean_of(s)) + seq![47u8] + tenths_text(s.maximum)
}

/// `name=min/mean/max`.
pub open spec fn entry_text(name: Seq<u8>, s: Summary) -> Seq<u8> {
    name + seq![61u8] + stat_text(s)
}

pub open spec fn text_of(e: (Seq<u8>, Summary)) -> Seq<u8> {
    entry_text(e.0, e.1)
}

/// The entries' texts joined by `", "`.
pub open spec fn join_entries(s: Seq<(Seq<u8>, Summary)>) -> Seq<u8>
    decreases s.len(),
{
    if s.len() == 0 {
        Seq::empty()
    } else if s.len() == 1 {
        text_of(s[0])
    } else {
        join_entries(s.drop_last()) + seq![44u8, 32u8] + text_of(s.last())
    }
}

pub open spec fn render_listing(s: Seq<(Seq<u8>, Summary)>) -> Seq<u8> {
    seq![123u8] + join_entries(s) + seq![125u8]
}

/// `s` lists the stations of `m`, their texts in strictly increasing byte order.
pub open spec fn is_listing(s: Seq<(Seq<u8>, Summary)>, m: StationMap) -> bool {
    &&& forall|i: int, j: int| 0 <= i < j < s.len() ==> name_lt(text_of(#[trigger] s[i]), text_of(#[trigger] s[j]))
    &&& forall|i: int| 0 <= i < s.len() ==> m.contains_key((#[trigger] s[i]).0) && m[s[i].0] == s[i].1
    &&& forall|k: Seq<u8>| #[trigger] m.contains_key(k) ==> exists|i: int| 0 <= i < s.len() && s[i].0 == k
}

/// The summary text of a mapping: its entries sorted as byte strings.
pub open spec fn render_map(m: StationMap) -> Seq<u8> {
    render_listing(choose|s: Seq<(Seq<u8>, Summary)>| is_listing(s, m))
}

pub proof fn lemma_mean_bounds(s: Summary)
    requires
        summary_wf(s),
    ensures
        -999 <= mean_of(s) <= 999,
{
    let c = s.count;
    if s.sum >= 0 {
        let a = s.sum;
        assert(0 <= a / c <= 999) by (nonlinear_arith)
            requires
                0 <= a <= 999 * c,
                c >= 1,
        ;
    } else {
        let a = -s.sum;
        assert(0 <= a / c <= 999) by (nonlinear_arith)
            requires
                0 <= a <= 999 * c,
                c >= 1,
        ;
    }
}

proof fn lemma_tenths_plain(v: int)
    requires
        -999 <= v <= 999,
    ensures
        forall|i: int| 0 <= i < tenths_text(v).len() ==> 45 <= #[trigger] tenths_text(v)[i] <= 57,
{
    let a = if v < 0 { -v } else { v };
    let whole = a / 10;
    assert(0 <= whole <= 99);
    assert(0 <= whole / 10 <= 9);
    assert(0 <= whole % 10 <= 9);
    assert(0 <= a % 10 <= 9);
}

/// The text after a station's `=` holds no `=`.
proof fn lemma_stat_text_plain(s: Summary)
    requires
        summary_wf(s),
    ensures
        forall|i: int| 0 <= i < stat_text(s).len() ==> #[trigger] stat_text(s)[i] != 61u8,
{
    lemma_mean_bounds(s);
    lemma_tenths_plain(s.minimum);
    lemma_tenths_plain(mean_of(s));
    lemma_tenths_plain(s.maximum);
}

/// Distinct stations have distinct entry texts.
pub proof fn lemma_entry_text_injective(a: Seq<u8>, sa: Summary, b: Seq<u8>, sb: Summary)
    requires
        summary_wf(sa),
        summary_wf(sb),
        entry_text(a, sa) == entry_text(b, sb),
    ensures
        a == b,
{
    lemma_stat_text_plain(sa);
    lemma_stat_text_plain(sb);
    let ta = entry_text(a, sa);
    let tb = entry_text(b, sb);
    let pa = a + seq![61u8];
    let pb = b + seq![61u8];
    assert(ta == pa + stat_text(sa));
    assert(tb == pb + stat_text(sb));
    assert(ta.len() == tb.len());
    if a.len() < b.len() {
        assert(pb[b.len() as int] == 61u8);
        assert(tb[b.len() as int] == 61u8);
        assert(ta[b.len() as int] == stat_text(sa)[b.len() - a.len() - 1]);
    } else if b.len() < a.len() {
        assert(pa[a.len() as int] == 61u8);
        assert(ta[a.len() as int] == 61u8);
        assert(tb[a.len() as int] == stat_text(sb)[a.len() - b.len() - 1]);
    } else {
        assert forall|i: int| 0 <= i < a.len() implies a[i] == b[i] by {
            assert(ta[i] == a[i]);
            assert(tb[i] == b[i]);
        }
        assert(a =~= b);
    }
}

/// A mapping of well-formed statistics has at most one listing.
pub proof fn lemma_listing_unique(s1: Seq<(Seq<u8>, Summary)>, s2: Seq<(Seq<u8>, Summary)>, m: StationMap)
    requires
        map_wf(m),
        is_listing(s1, m),
        is_listing(s2, m),
    ensures
        s1 == s2,
    decreases s1.len(),
{
    if s1.len() == 0 {
        if s2.len() > 0 {
            assert(m.contains_key(s2[0].0));
        }
        assert(s1 =~= s2);
    } else {
        assert(m.contains_key(s1[0].0));
        assert(s2.len() > 0);
        let k1 = s1[0].0;
        let k2 = s2[0].0;
        if k1 != k2 {
            assert(m.contains_key(k2));
            let j1 = choose|i: int| 0 <= i < s1.len() && s1[i].0 == k2;
            let j2 = choose|i: int| 0 <= i < s2.len() && s2[i].0 == k1;
            assert(name_lt(text_of(s1[0]), text_of(s1[j1])));
            assert(name_lt(text_of(s2[0]), text_of(s2[j2])));
            assert(s1[j1] == s2[0]);
            assert(s2[j2] == s1[0]);
            lemma_lt_asymmetric(text_of(s1[0]), text_of(s2[0]));
        }
        let m2 = m.remove(k1);
        let t1 = s1.drop_first();
        let t2 = s2.drop_first();
        assert(map_wf(m2));
        assert forall|i: int| 0 <= i < t1.len() implies m2.contains_key((#[trigger] t1[i]).0) && m2[t1[i].0] == t1[i].1 by {
            assert(name_lt(text_of(s1[0]), text_of(s1[i + 1])));
            lemma_lt_irreflexive(text_of(s1[0]));
        }
        assert forall|i: int| 0 <= i < t2.len() implies m2.contains_key((#[trigger] t2[i]).0) && m2[t2[i].0] == t2[i].1 by {
            assert(name_lt(text_of(s2[0]), text_of(s2[i + 1])));
            lemma_lt_irreflexive(text_of(s2[0]));
        }
        assert forall|k: Seq<u8>| #[trigger] m2.contains_key(k) implies exists|i: int| 0 <= i < t1.len() && t1[i].0 == k by {
            let i = choose|i: int| 0 <= i < s1.len() && s1[i].0 == k;
            assert(t1[i - 1].0 == k);
        }
        assert forall|k: Seq<u8>| #[trigger] m2.contains_key(k) implies exists|i: int| 0 <= i < t2.len() && t2[i].0 == k by {
            let i = choose|i: int| 0 <= i < s2.len() && s2[i].0 == k;
            assert(t2[i - 1].0 == k);
        }
        assert forall|i: int, j: int| 0 <= i < j < t1.len() implies name_lt(text_of(#[trigger] t1[i]), text_of(#[trigger] t1[j])) by {
            assert(name_lt(text_of(s1[i + 1]), text_of(s1[j + 1])));
        }
        assert forall|i: int, j: int| 0 <= i < j < t2.len() implies name_lt(text_of(#[trigger] t2[i]), text_of(#[trigger] t2[j])) by {
            assert(name_lt(text_of(s2[i + 1]), text_of(s2[j + 1])));
        }
        lemma_listing_unique(t1, t2, m2);
        assert(s1[0] == s2[0]);
        assert(s1.len() == s2.len());
        assert forall|i: int| 0 <= i < s1.len() implies s1[i] == s2[i] by {
            if i > 0 {
                assert(t1[i - 1] == t2[i - 1]);
            }
        }
        assert(s1 =~= s2);
    }
}

fn push_bytes(out: &mut Vec<u8>, bytes: &[u8])
    ensures
        final(out)@ == old(out)@ + bytes@,
{
    let ghost start = out@;
    let mut i: usize = 0;
    while i < bytes.len()
        invariant
            i <= bytes@.len(),
            out@ == start + bytes@.take(i as int),
        decreases bytes.len() - i,
    {
        out.push(bytes[i]);
        i += 1;
        assert(out@ =~= start + bytes@.take(i as int));
    }
    assert(bytes@.take(bytes@.len() as int) =~= bytes@);
}

fn digit_byte_of(d: i32) -> (r: u8)
    requires
        0 <= d <= 9,
    ensures
        r == digit_byte(d as int),
{
    (48 + d) as u8
}

/// Appends the text of `v` tenths of a degree.
fn push_tenths(out: &mut Vec<u8>, v: i32)
    requires
        -999 <= v <= 999,
    ensures
        final(out)@ == old(out)@ + tenths_text(v as int),
{
    let ghost start = out@;
    let a: i32 = if v < 0 { -v } else { v };
    if v < 0 {
        out.push(MINUS);
    }
    let whole: i32 = a / 10;
    if whole >= 10 {
        out.push(digit_byte_of(whole / 10));
        out.push(digit_byte_of(whole % 10));
    } else {
        out.push(digit_byte_of(whole));
    }
    out.push(DOT);
    out.push(digit_byte_of(a % 10));
    assert(out@ =~= start + tenths_text(v as int));
}

/// Mean of the station's temperatures in tenths, rounded toward zero.
pub fn mean_tenths(stat: &StationStat) -> (r: i32)
    requires
        stat.wf(),
    ensures
        r == mean_of(stat@),
        -999 <= r <= 999,
{
    let c = stat.count as i64;
    if stat.sum >= 0 {
        let a = stat.sum;
        assert(a / c <= 999) by (nonlinear_arith)
            requires
                0 <= a <= 999 * c,
                c >= 1,
        ;
        (a / c) as i32
    } else {
        let a = -stat.sum;
        assert(0 <= a / c <= 999) by (nonlinear_arith)
            requires
                0 <= a <= 999 * c,
                c >= 1,
        ;
        -((a / c) as i32)
    }
}

/// Appends `name=min/mean/max`.
fn push_entry(out: &mut Vec<u8>, e: &StationEntry)
    requires
        e.stat.wf(),
    ensures
        final(out)@ == old(out)@ + entry_text(e.name@, e.stat@),
{
    let ghost start = out@;
    push_bytes(out, e.name.as_slice());
    out.push(61u8);
    push_tenths(out, e.stat.minimum);
    out.push(47u8);
    push_tenths(out, mean_tenths(&e.stat));
    out.push(47u8);
    push_tenths(out, e.stat.maximum);
    assert(out@ =~= start + entry_text(e.name@, e.stat@));
}

pub open spec fn listing_of(s: Seq<StationEntry>) -> Seq<(Seq<u8>, Summary)> {
    s.map_values(|e: StationEntry| (e.name@, e.stat@))
}

/// The table's entries, in table order, are exactly the stations of its view.
proof fn lemma_table_entries(t: &StationTable)
    requires
        t.wf(),
    ensures
        forall|i: int|
            0 <= i < listing_of(t.entries@).len() ==> t@.contains_key((#[trigger] listing_of(t.entries@)[i]).0)
                && t@[listing_of(t.entries@)[i].0] == listing_of(t.entries@)[i].1,
        forall|k: Seq<u8>|
            #[trigger] t@.contains_key(k) ==> exists|i: int|
                0 <= i < listing_of(t.entries@).len() && listing_of(t.entries@)[i].0 == k,
        map_wf(t@),
{
    let s = t.entries@;
    let l = listing_of(s);
    lemma_entries_map_all(s);
    t.lemma_view_wf();
    assert forall|i: int| 0 <= i < l.len() implies t@.contains_key((#[trigger] l[i]).0) && t@[l[i].0] == l[i].1 by {
        assert(l[i] == (s[i].name@, s[i].stat@));
    }
    assert forall|k: Seq<u8>| #[trigger] t@.contains_key(k) implies exists|i: int| 0 <= i < l.len() && l[i].0 == k by {
        let i = choose|i: int| has_name(s, k, i);
        assert(l[i].0 == k);
    }
}

/// The entry texts of the table, sorted as byte strings, with the stations
/// they stand for.
fn sorted_entry_texts(table: &StationTable) -> (r: (Vec<Vec<u8>>, Ghost<Seq<(Seq<u8>, Summary)>>))
    requires
        table.wf(),
    ensures
        is_listing(r.1@, table@),
        r.0@.len() == r.1@.len(),
        forall|j: int| 0 <= j < r.0@.len() ==> (#[trigger] r.0@[j])@ == text_of(r.1@[j]),
{
    broadcast use group_to_multiset_ensures, group_multiset_axioms;

    let ghost l = listing_of(table.entries@);
    proof {
        lemma_table_entries(table);
    }
    let mut texts: Vec<Vec<u8>> = Vec::new();
    let ghost mut perm: Seq<(Seq<u8>, Summary)> = Seq::empty();
    let mut i: usize = 0;
    assert(l.take(0) =~= Seq::<(Seq<u8>, Summary)>::empty());
    while i < table.entries.len()
        invariant
            table.wf(),
            l == listing_of(table.entries@),
            map_wf(table@),
            forall|q: int| 0 <= q < l.len() ==> table@.contains_key((#[trigger] l[q]).0) && table@[l[q].0] == l[q].1,
            i <= l.len(),
            texts@.len() == perm.len() == i,
            forall|j: int| 0 <= j < texts@.len() ==> (#[trigger] texts@[j])@ == text_of(perm[j]),
            forall|a: int, b: int| 0 <= a < b < texts@.len() ==> name_lt((#[trigger] texts@[a])@, (#[trigger] texts@[b])@),
            perm.to_multiset() == l.take(i as int).to_multiset(),
        decreases table.entries.len() - i,
    {
        let e = &table.entries[i];
        let ghost x = l[i as int];
        assert(x == (e.name@, e.stat@));
        assert(e.stat.wf());
        let mut t: Vec<u8> = Vec::new();
        push_entry(&mut t, e);
        assert(t@ =~= text_of(x));
        let mut p: usize = 0;
        while p < texts.len() && compare_bytes(texts[p].as_slice(), t.as_slice()) < 0
            invariant
                p <= texts@.len(),
                forall|j: int| 0 <= j < p ==> name_lt((#[trigger] texts@[j])@, t@),
            decreases texts.len() - p,
        {
            p += 1;
        }
        proof {
            if p < texts@.len() {
                let y = perm[p as int];
                if texts@[p as int]@ == t@ {
                    assert(perm[p as int] == y);
                    to_multiset_contains(perm, y);
                    to_multiset_contains(l.take(i as int), y);
                    assert(l.take(i as int).contains(y));
                    let q = choose|q: int| 0 <= q < i && l.take(i as int)[q] == y;
                    assert(l[q] == y);
                    assert(summary_wf(table@[l[q].0]));
                    assert(summary_wf(table@[x.0]));
                    lemma_entry_text_injective(y.0, y.1, x.0, x.1);
                    assert(name_lt(table.entries@[q].name@, table.entries@[i as int].name@));
                    lemma_lt_irreflexive(x.0);
                }
                assert(name_lt(t@, texts@[p as int]@));
                assert forall|j: int| p < j < texts@.len() implies name_lt(t@, (#[trigger] texts@[j])@) by {
                    lemma_lt_transitive(t@, texts@[p as int]@, texts@[j]@);
                }
            }
            assert(l.take(i + 1) =~= l.take(i as int).insert(i as int, x));
        }
        texts.insert(p, t);
        proof {
            to_multiset_insert(perm, p as int, x);
            to_multiset_insert(l.take(i as int), i as int, x);
            perm = perm.insert(p as int, x);
        }
        i += 1;
    }
    proof {
        assert(l.take(l.len() as int) =~= l);
        assert forall|j: int| 0 <= j < perm.len() implies table@.contains_key((#[trigger] perm[j]).0)
            && table@[perm[j].0] == perm[j].1 by {
            to_multiset_contains(perm, perm[j]);
            to_multiset_contains(l, perm[j]);
            assert(l.contains(perm[j]));
        }
        assert forall|k: Seq<u8>| #[trigger] table@.contains_key(k) implies exists|j: int|
            0 <= j < perm.len() && perm[j].0 == k by {
            let q = choose|q: int| 0 <= q < l.len() && l[q].0 == k;
            to_multiset_contains(perm, l[q]);
            to_multiset_contains(l, l[q]);
            assert(perm.contains(l[q]));
        }
        assert forall|a: int, b: int| 0 <= a < b < perm.len() implies name_lt(text_of(#[trigger] perm[a]), text_of(
            #[trigger] perm[b],
        )) by {
            assert(name_lt(texts@[a]@, texts@[b]@));
        }
    }
    (texts, Ghost(perm))
}

/// Renders the table as `{name=min/mean/max, ...}`, the entries sorted as
/// byte strings.
pub fn render(table: &StationTable) -> (r: Vec<u8>)
    requires
        table.wf(),
    ensures
        r@ == render_map(table@),
{
    let (texts, Ghost(l)) = sorted_entry_texts(table);
    proof {
        lemma_table_entries(table);
        let c = choose|c: Seq<(Seq<u8>, Summary)>| is_listing(c, table@);
        lemma_listing_unique(c, l, table@);
    }
    let mut out: Vec<u8> = Vec::new();
    out.push(123u8);
    let mut i: usize = 0;
    assert(l.take(0) =~= Seq::<(Seq<u8>, Summary)>::empty());
    while i < texts.len()
        invariant
            texts@.len() == l.len(),
            forall|j: int| 0 <= j < texts@.len() ==> (#[trigger] texts@[j])@ == text_of(l[j]),
            i <= texts@.len(),
            out@ == seq![123u8] + join_entries(l.take(i as int)),
        decreases texts.len() - i,
    {
        if i > 0 {
            out.push(44u8);
            out.push(32u8);
        }
        push_bytes(&mut out, texts[i].as_slice());
        proof {
            let t = l.take(i + 1);
            assert(t.drop_last() =~= l.take(i as int));
            assert(t.last() == l[i as int]);
            if i == 0 {
                assert(t.len() == 1);
            }
        }
        i += 1;
        assert(out@ =~= seq![123u8] + join_entries(l.take(i as int)));
    }
    out.push(125u8);
    assert(l.take(l.len() as int) =~= l);
    assert(out@ =~= render_listing(l));
    out
}

} // verus!
