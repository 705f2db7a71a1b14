//! Per-path statistics of a history: how they are aggregated and ordered.
use vstd::prelude::*;
use vstd::seq_lib::group_to_multiset_ensures;
use crate::model::{ObjectRec, PathStats};
use crate::order::{compare_str, lemma_str_lt_order, str_lt, Rank};
use crate::strset::{ascending, locate, views};

verus! {

broadcast use group_to_multiset_ensures;

/// What "the N largest" is measured by.
#[derive(Clone, Copy, Debug, PartialEq, Eq)]
pub enum SortBy {
    /// largest single version
    Max,
    /// all versions together
    Cum,
}

/// Number of blobs under path `p`.
pub open spec fn count_of(objs: Seq<ObjectRec>, p: Seq<char>) -> nat
    decreases objs.len(),
{
    if objs.len() == 0 {
        0
    } else {
        count_of(objs.drop_last(), p) + if objs.last().path@ == p {
            1nat
        } else {
            0nat
        }
    }
}

/// Total size of the blobs under path `p`.
pub open spec fn cum_of(objs: Seq<ObjectRec>, p: Seq<char>) -> nat
    decreases objs.len(),
{
    if objs.len() == 0 {
        0
    } else {
        cum_of(objs.drop_last(), p) + if objs.last().path@ == p {
            objs.last().size as nat
        } else {
            0nat
        }
    }
}

/// Largest blob under path `p` (0 when there is none).
pub open spec fn max_of(objs: Seq<ObjectRec>, p: Seq<char>) -> nat
    decreases objs.len(),
{
    if objs.len() == 0 {
        0
    } else {
        let m = max_of(objs.drop_last(), p);
        if objs.last().path@ == p && objs.last().size > m {
            objs.last().size as nat
        } else {
            m
        }
    }
}

/// The totals of path `p` fit the counters of `PathStats`.
pub open spec fn fits(objs: Seq<ObjectRec>, p: Seq<char>) -> bool {
    cum_of(objs, p) <= u64::MAX && count_of(objs, p) <= u32::MAX
}

pub open spec fn has_path(objs: Seq<ObjectRec>, p: Seq<char>) -> bool {
    exists|i: int| 0 <= i < objs.len() && #[trigger] objs[i].path@ == p
}

/// `s` holds the right totals for its path.
pub open spec fn stat_matches(objs: Seq<ObjectRec>, s: PathStats) -> bool {
    &&& has_path(objs, s.path@)
    &&& s.max == max_of(objs, s.path@)
    &&& s.cum == cum_of(objs, s.path@)
    &&& s.versions == count_of(objs, s.path@)
}

/// `stats` holds exactly one correct entry for every path of `objs`.
pub open spec fn aggregated(objs: Seq<ObjectRec>, stats: Seq<PathStats>) -> bool {
    &&& forall|i: int| 0 <= i < stats.len() ==> stat_matches(objs, #[trigger] stats[i])
    &&& forall|i: int, j: int|
        0 <= i < stats.len() && 0 <= j < stats.len() && i != j ==> #[trigger] stats[i].path@
            != #[trigger] stats[j].path@
    &&& forall|k: int| 0 <= k < objs.len() ==> covers(stats, #[trigger] objs[k].path@)
}

/// Some entry of `stats` is for path `p`.
pub open spec fn covers(stats: Seq<PathStats>, p: Seq<char>) -> bool {
    exists|i: int| 0 <= i < stats.len() && #[trigger] stats[i].path@ == p
}

/// `a` is listed before `b`: larger first by `by`, then by the other
/// measure, then by path.
pub open spec fn stat_before(a: PathStats, b: PathStats, by: SortBy) -> bool {
    let (a1, a2, b1, b2) = match by {
        SortBy::Max => (a.max, a.cum, b.max, b.cum),
        SortBy::Cum => (a.cum, a.max, b.cum, b.max),
    };
    a1 > b1 || (a1 == b1 && (a2 > b2 || (a2 == b2 && str_lt(a.path@, b.path@))))
}

pub open spec fn same_rank(a: PathStats, b: PathStats) -> bool {
    a.max == b.max && a.cum == b.cum && a.path@ == b.path@
}

/// No entry is listed after one it should precede.
pub open spec fn sorted_stats(s: Seq<PathStats>, by: SortBy) -> bool {
    forall|i: int, j: int| 0 <= i < j < s.len() ==> !stat_before(#[trigger] s[j], #[trigger] s[i], by)
}

pub proof fn lemma_before_order(a: PathStats, b: PathStats, c: PathStats, by: SortBy)
    ensures
        !stat_before(a, a, by),
        stat_before(a, b, by) ==> !stat_before(b, a, by),
        stat_before(a, b, by) && stat_before(b, c, by) ==> stat_before(a, c, by),
        stat_before(a, b, by) || stat_before(b, a, by) || same_rank(a, b),
        same_rank(a, b) ==> (stat_before(a, c, by) == stat_before(b, c, by)),
        same_rank(a, b) ==> (stat_before(c, a, by) == stat_before(c, b, by)),
{
    lemma_str_lt_order(a.path@, b.path@, c.path@);
    lemma_str_lt_order(b.path@, a.path@, c.path@);
    lemma_str_lt_order(c.path@, a.path@, b.path@);
    lemma_str_lt_order(a.path@, c.path@, b.path@);
}

/// An entry preceding `a` also precedes whatever `a` does not follow.
pub proof fn lemma_before_chain(x: PathStats, a: PathStats, b: PathStats, by: SortBy)
    requires
        stat_before(x, a, by),
        !stat_before(b, a, by),
    ensures
        stat_before(x, b, by),
{
    lemma_before_order(a, b, x, by);
    lemma_before_order(x, a, b, by);
}

/// The order of the statistics is fully determined: two orderings by `by`
/// of the same entries, one per path, are the same sequence.
pub proof fn lemma_sorted_stats_unique(a: Seq<PathStats>, b: Seq<PathStats>, by: SortBy)
    requires
        a.to_multiset() == b.to_multiset(),
        sorted_stats(a, by),
        sorted_stats(b, by),
        forall|i: int, j: int| 0 <= i < a.len() && 0 <= j < a.len() && i != j ==> #[trigger] a[i].path@ != #[trigger] a[j].path@,
    ensures
        a == b,
    decreases a.len(),
{
    broadcast use vstd::seq_lib::to_multiset_remove, vstd::seq_lib::to_multiset_contains;

    assert(a.len() == a.to_multiset().len());
    assert(b.len() == b.to_multiset().len());
    if a.len() == 0 {
        assert(a =~= b);
    } else {
        let x = a[0];
        let y = b[0];
        assert(a.to_multiset().count(y) > 0) by {
            assert(b.contains(y));
        }
        assert(b.to_multiset().count(x) > 0) by {
            assert(a.contains(x));
        }
        let k = choose|k: int| 0 <= k < a.len() && a[k] == y;
        let m = choose|m: int| 0 <= m < b.len() && b[m] == x;
        lemma_before_order(x, y, x, by);
        if x != y {
            assert(k != 0 && m != 0);
            assert(!stat_before(a[k], a[0], by));
            assert(!stat_before(b[m], b[0], by));
            assert(a[k].path@ != a[0].path@);
        }
        assert(x == y);
        let a1 = a.remove(0);
        let b1 = b.remove(0);
        assert(a1.to_multiset() == b1.to_multiset());
        assert forall|i: int, j: int| 0 <= i < j < a1.len() implies !stat_before(#[trigger] a1[j], #[trigger] a1[i], by) by {
            assert(a1[i] == a[i + 1] && a1[j] == a[j + 1]);
        }
        assert forall|i: int, j: int| 0 <= i < j < b1.len() implies !stat_before(#[trigger] b1[j], #[trigger] b1[i], by) by {
            assert(b1[i] == b[i + 1] && b1[j] == b[j + 1]);
        }
        assert forall|i: int, j: int| 0 <= i < a1.len() && 0 <= j < a1.len() && i != j implies #[trigger] a1[i].path@
            != #[trigger] a1[j].path@ by {
            assert(a1[i] == a[i + 1] && a1[j] == a[j + 1]);
        }
        lemma_sorted_stats_unique(a1, b1, by);
        assert(a =~= seq![x] + a1);
        assert(b =~= seq![y] + b1);
    }
}

pub fn stat_before_exec(a: &PathStats, b: &PathStats, by: SortBy) -> (r: bool)
    ensures
        r == stat_before(*a, *b, by),
{
    let (a1, a2, b1, b2) = match by {
        SortBy::Max => (a.max, a.cum, b.max, b.cum),
        SortBy::Cum => (a.cum, a.max, b.cum, b.max),
    };
    if a1 != b1 {
        a1 > b1
    } else if a2 != b2 {
        a2 > b2
    } else {
        proof {
            lemma_str_lt_order(a.path@, b.path@, b.path@);
        }
        match compare_str(a.path.as_str(), b.path.as_str()) {
            Rank::Less => true,
            _ => false,
        }
    }
}

/// The first position whose entry `x` precedes.
fn upper_slot(s: &Vec<PathStats>, x: &PathStats, by: SortBy) -> (p: usize)
    requires
        sorted_stats(s@, by),
    ensures
        p <= s.len(),
        forall|k: int| 0 <= k < p ==> !stat_before(*x, #[trigger] s@[k], by),
        forall|k: int| p <= k < s.len() ==> stat_before(*x, #[trigger] s@[k], by),
{
    let mut lo: usize = 0;
    let mut hi: usize = s.len();
    while lo < hi
        invariant
            sorted_stats(s@, by),
            lo <= hi <= s.len(),
            forall|k: int| 0 <= k < lo ==> !stat_before(*x, #[trigger] s@[k], by),
            forall|k: int| hi <= k < s.len() ==> stat_before(*x, #[trigger] s@[k], by),
        decreases hi - lo,
    {
        let mid = lo + (hi - lo) / 2;
        if stat_before_exec(x, &s[mid], by) {
            assert forall|k: int| mid <= k < s.len() implies stat_before(*x, #[trigger] s@[k], by) by {
                if k > mid {
                    lemma_before_chain(*x, s@[mid as int], s@[k], by);
                }
            }
            hi = mid;
        } else {
            assert forall|k: int| 0 <= k < mid + 1 implies !stat_before(*x, #[trigger] s@[k], by) by {
                if k < mid && stat_before(*x, s@[k], by) {
                    lemma_before_chain(*x, s@[k], s@[mid as int], by);
                }
            }
            lo = mid + 1;
        }
    }
    lo
}

/// Ordering by `Cum` puts the larger cumulative size first, and by `Max` the
/// larger single version; on a tie the other measure decides.
pub proof fn lemma_larger_first(a: PathStats, b: PathStats)
    ensures
        a.cum > b.cum ==> stat_before(a, b, SortBy::Cum),
        a.cum == b.cum && a.max > b.max ==> stat_before(a, b, SortBy::Cum),
        a.max > b.max ==> stat_before(a, b, SortBy::Max),
        a.max == b.max && a.cum > b.cum ==> stat_before(a, b, SortBy::Max),
        a.max == b.max && a.cum == b.cum && str_lt(a.path@, b.path@) ==> stat_before(a, b, SortBy::Max) && stat_before(
            a,
            b,
            SortBy::Cum,
        ),
{
}

/// In statistics ordered by `by`, the measure `by` names never grows along
/// the list: cumulative sizes for `Cum`, single-version sizes for `Max`.
pub proof fn lemma_sorted_descending(s: Seq<PathStats>, by: SortBy, i: int, j: int)
    requires
        sorted_stats(s, by),
        0 <= i < j < s.len(),
    ensures
        by == SortBy::Cum ==> s[i].cum >= s[j].cum,
        by == SortBy::Max ==> s[i].max >= s[j].max,
{
    lemma_larger_first(s[j], s[i]);
}

/// Where `x` goes into `s`: after every entry it does not precede.
pub open spec fn slot(s: Seq<PathStats>, x: PathStats, by: SortBy) -> int
    decreases s.len(),
{
    if s.len() == 0 {
        0
    } else if stat_before(x, s.last(), by) {
        slot(s.drop_last(), x, by)
    } else {
        s.len() as int
    }
}

/// `v` ordered by `by`, stably: each entry in turn goes after every entry
/// before it that it does not precede, so entries of equal rank keep their
/// order.
pub open spec fn stable_sorted(v: Seq<PathStats>, by: SortBy) -> Seq<PathStats>
    decreases v.len(),
{
    if v.len() == 0 {
        Seq::empty()
    } else {
        let s = stable_sorted(v.drop_last(), by);
        s.insert(slot(s, v.last(), by), v.last())
    }
}

/// The first position whose entry `x` precedes is its slot.
proof fn lemma_slot(s: Seq<PathStats>, x: PathStats, by: SortBy, p: int)
    requires
        0 <= p <= s.len(),
        forall|k: int| 0 <= k < p ==> !stat_before(x, #[trigger] s[k], by),
        forall|k: int| p <= k < s.len() ==> stat_before(x, #[trigger] s[k], by),
    ensures
        slot(s, x, by) == p,
    decreases s.len(),
{
    if s.len() > 0 {
        assert(s.last() == s[s.len() - 1]);
        if stat_before(x, s.last(), by) {
            assert forall|k: int| 0 <= k < p implies !stat_before(x, #[trigger] s.drop_last()[k], by) by {
                assert(s.drop_last()[k] == s[k]);
            }
            assert forall|k: int| p <= k < s.drop_last().len() implies stat_before(x, #[trigger] s.drop_last()[k], by) by {
                assert(s.drop_last()[k] == s[k]);
            }
            lemma_slot(s.drop_last(), x, by, p);
        }
    }
}

/// In an ordered `s`, the slot of `x` follows every entry `x` does not
/// precede and comes before every entry it precedes.
proof fn lemma_slot_bounds(s: Seq<PathStats>, x: PathStats, by: SortBy)
    requires
        sorted_stats(s, by),
    ensures
        0 <= slot(s, x, by) <= s.len(),
        forall|k: int| 0 <= k < slot(s, x, by) ==> !stat_before(x, #[trigger] s[k], by),
        forall|k: int| slot(s, x, by) <= k < s.len() ==> stat_before(x, #[trigger] s[k], by),
    decreases s.len(),
{
    if s.len() > 0 {
        let d = s.drop_last();
        assert forall|i: int, j: int| 0 <= i < j < d.len() implies !stat_before(#[trigger] d[j], #[trigger] d[i], by) by {
            assert(d[i] == s[i] && d[j] == s[j]);
        }
        lemma_slot_bounds(d, x, by);
        assert(s.last() == s[s.len() - 1]);
        if stat_before(x, s.last(), by) {
            assert forall|k: int| 0 <= k < slot(s, x, by) implies !stat_before(x, #[trigger] s[k], by) by {
                assert(s[k] == d[k]);
            }
            assert forall|k: int| slot(s, x, by) <= k < s.len() implies stat_before(x, #[trigger] s[k], by) by {
                if k < d.len() {
                    assert(s[k] == d[k]);
                }
            }
        } else {
            assert forall|k: int| 0 <= k < s.len() implies !stat_before(x, #[trigger] s[k], by) by {
                if k < s.len() - 1 && stat_before(x, s[k], by) {
                    lemma_before_chain(x, s[k], s.last(), by);
                }
            }
        }
    }
}

/// Stable ordering gives an ordered list.
pub proof fn lemma_stable_sorted_sorted(v: Seq<PathStats>, by: SortBy)
    ensures
        sorted_stats(stable_sorted(v, by), by),
        stable_sorted(v, by).len() == v.len(),
    decreases v.len(),
{
    if v.len() > 0 {
        lemma_stable_sorted_sorted(v.drop_last(), by);
        let s = stable_sorted(v.drop_last(), by);
        let x = v.last();
        lemma_slot_bounds(s, x, by);
        let p = slot(s, x, by);
        let r = s.insert(p, x);
        assert forall|a: int, b: int| 0 <= a < b < r.len() implies !stat_before(#[trigger] r[b], #[trigger] r[a], by) by {
            if b < p {
                assert(r[a] == s[a] && r[b] == s[b]);
            } else if b == p {
                assert(r[a] == s[a] && r[b] == x);
            } else if a == p {
                assert(r[a] == x && r[b] == s[b - 1]);
                lemma_before_order(x, s[b - 1], x, by);
            } else if a < p {
                assert(r[a] == s[a] && r[b] == s[b - 1]);
            } else {
                assert(r[a] == s[a - 1] && r[b] == s[b - 1]);
            }
        }
    }
}

/// Sorting twice by the same measure gives what sorting once gave.
pub proof fn lemma_sort_twice(v: Seq<PathStats>, by: SortBy)
    ensures
        stable_sorted(stable_sorted(v, by), by) == stable_sorted(v, by),
{
    lemma_stable_sorted_sorted(v, by);
    lemma_stable_sorted_fixed(stable_sorted(v, by), by);
}

/// Ordering what is already ordered changes nothing.
pub proof fn lemma_stable_sorted_fixed(v: Seq<PathStats>, by: SortBy)
    requires
        sorted_stats(v, by),
    ensures
        stable_sorted(v, by) == v,
    decreases v.len(),
{
    if v.len() > 0 {
        let d = v.drop_last();
        assert forall|i: int, j: int| 0 <= i < j < d.len() implies !stat_before(#[trigger] d[j], #[trigger] d[i], by) by {
            assert(d[i] == v[i] && d[j] == v[j]);
        }
        lemma_stable_sorted_fixed(d, by);
        if d.len() > 0 {
            assert(d.last() == v[v.len() - 2]);
            assert(v.last() == v[v.len() - 1]);
        }
        assert(slot(d, v.last(), by) == d.len());
        assert(d.insert(d.len() as int, v.last()) =~= v);
    }
}

/// The entries of `v` in the order of `by`; equal entries keep their order.
pub fn sort_stats(v: &Vec<PathStats>, by: SortBy) -> (r: Vec<PathStats>)
    ensures
        sorted_stats(r@, by),
        r@.to_multiset() == v@.to_multiset(),
        r@ == stable_sorted(v@, by),
{
    let mut r: Vec<PathStats> = Vec::new();
    let mut i: usize = 0;
    while i < v.len()
        invariant
            i <= v.len(),
            sorted_stats(r@, by),
            r@.to_multiset() == v@.take(i as int).to_multiset(),
            r@ == stable_sorted(v@.take(i as int), by),
        decreases v.len() - i,
    {
        let x = v[i].clone();
        let p = upper_slot(&r, &x, by);
        let ghost before = r@;
        r.insert(p, x);
        proof {
            lemma_slot(before, x, by, p as int);
            assert(v@.take(i + 1).drop_last() =~= v@.take(i as int));
            assert(v@.take(i + 1).last() == x);
            assert(r@ == before.insert(p as int, x));
            assert(v@.take(i + 1) =~= v@.take(i as int).push(x));
            assert forall|a: int, b: int| 0 <= a < b < r@.len()
                implies !stat_before(#[trigger] r@[b], #[trigger] r@[a], by) by {
                if b < p {
                    assert(r@[a] == before[a] && r@[b] == before[b]);
                } else if b == p {
                    assert(r@[a] == before[a]);
                } else if a == p {
                    assert(r@[b] == before[b - 1]);
                    lemma_before_order(x, before[b - 1], x, by);
                } else if a < p {
                    assert(r@[a] == before[a] && r@[b] == before[b - 1]);
                } else {
                    assert(r@[a] == before[a - 1] && r@[b] == before[b - 1]);
                }
            }
        }
        i = i + 1;
    }
    assert(v@.take(i as int) =~= v@);
    r
}

proof fn lemma_prefix_totals(objs: Seq<ObjectRec>, n: int, p: Seq<char>)
    requires
        0 <= n <= objs.len(),
    ensures
        cum_of(objs.take(n), p) <= cum_of(objs, p),
        count_of(objs.take(n), p) <= count_of(objs, p),
    decreases objs.len(),
{
    if n < objs.len() {
        assert(objs.drop_last().take(n) =~= objs.take(n));
        lemma_prefix_totals(objs.drop_last(), n, p);
    } else {
        assert(objs.take(n) =~= objs);
    }
}

proof fn lemma_absent_path(objs: Seq<ObjectRec>, p: Seq<char>)
    requires
        !has_path(objs, p),
    ensures
        cum_of(objs, p) == 0,
        count_of(objs, p) == 0,
        max_of(objs, p) == 0,
    decreases objs.len(),
{
    if objs.len() > 0 {
        assert(objs.last() == objs[objs.len() - 1]);
        assert(!has_path(objs.drop_last(), p)) by {
            if has_path(objs.drop_last(), p) {
                let i = choose|i: int| 0 <= i < objs.drop_last().len() && #[trigger] objs.drop_last()[i].path@ == p;
                assert(objs[i].path@ == p);
            }
        }
        lemma_absent_path(objs.drop_last(), p);
    }
}

/// One entry per path of `objs`, ascending by path; `None` when the totals
/// of some path do not fit the counters of `PathStats`.
pub fn aggregate(objs: &Vec<ObjectRec>) -> (agg: Option<Vec<PathStats>>)
    ensures
        agg matches Some(a) ==> aggregated(objs@, a@),
        agg is None <==> exists|i: int| 0 <= i < objs@.len() && !fits(objs@, #[trigger] objs@[i].path@),
{
    let mut keys: Vec<String> = Vec::new();
    let mut agg: Vec<PathStats> = Vec::new();
    let mut i: usize = 0;
    while i < objs.len()
        invariant
            i <= objs.len(),
            keys.len() == agg.len(),
            forall|j: int| 0 <= j < keys.len() ==> (#[trigger] keys@[j])@ == agg@[j].path@,
            ascending(views(keys@)),
            forall|j: int| 0 <= j < agg.len() ==> stat_matches(objs@.take(i as int), #[trigger] agg@[j]),
            forall|k: int| 0 <= k < i ==> covers(agg@, #[trigger] objs@[k].path@),
        decreases objs.len() - i,
    {
        let o = &objs[i];
        let ghost pre = objs@.take(i as int);
        let ghost post = objs@.take(i + 1);
        let ghost q = o.path@;
        proof {
            assert(post.drop_last() =~= pre);
            assert(post.last() == *o);
            assert forall|j: int| 0 <= j < agg.len() implies #[trigger] views(keys@)[j] == agg@[j].path@ by {
                assert(keys@[j]@ == agg@[j].path@);
            }
            lemma_prefix_totals(objs@, i + 1, q);
        }
        let p = locate(&keys, o.path.as_str());
        let found = p < keys.len() && crate::order::str_eq(keys[p].as_str(), o.path.as_str());
        if found {
            let old_stat = agg[p].clone();
            proof {
                assert(agg@[p as int].path@ == q);
                assert(stat_matches(pre, agg@[p as int]));
            }
            let new_cum = match old_stat.cum.checked_add(o.size) {
                Some(c) => c,
                None => {
                    assert(!fits(objs@, objs@[i as int].path@));
                    return None;
                },
            };
            if old_stat.versions == 4294967295 {
                assert(!fits(objs@, objs@[i as int].path@));
                return None;
            }
            let new_max = if o.size > old_stat.max { o.size } else { old_stat.max };
            let new_stat = PathStats {
                path: old_stat.path,
                max: new_max,
                cum: new_cum,
                versions: old_stat.versions + 1,
            };
            let ghost before = agg@;
            agg.set(p, new_stat);
            proof {
                assert forall|j: int| 0 <= j < agg.len() implies stat_matches(post, #[trigger] agg@[j]) by {
                    if j == p {
                        assert(has_path(post, q)) by {
                            assert(post[i as int].path@ == q);
                        }
                    } else {
                        assert(agg@[j] == before[j]);
                        assert(views(keys@)[j] != views(keys@)[p as int]) by {
                            crate::strset::lemma_ascending_unique(views(keys@));
                        }
                        let w = choose|w: int| 0 <= w < pre.len() && #[trigger] pre[w].path@ == before[j].path@;
                        assert(post[w].path@ == before[j].path@);
                    }
                }
                assert forall|k: int| 0 <= k < i + 1 implies covers(agg@, #[trigger] objs@[k].path@) by {
                    if k == i {
                        assert(agg@[p as int].path@ == objs@[k].path@);
                    } else {
                        assert(covers(before, objs@[k].path@));
                        let j = choose|j: int| 0 <= j < before.len() && #[trigger] before[j].path@ == objs@[k].path@;
                        assert(agg@[j].path@ == objs@[k].path@);
                    }
                }
            }
        } else {
            proof {
                assert(!has_path(pre, q)) by {
                    if has_path(pre, q) {
                        let w = choose|w: int| 0 <= w < pre.len() && #[trigger] pre[w].path@ == q;
                        assert(objs@[w].path@ == q);
                        assert(covers(agg@, objs@[w].path@));
                        let j = choose|j: int| 0 <= j < agg.len() && #[trigger] agg@[j].path@ == objs@[w].path@;
                        assert(views(keys@)[j] == q);
                        lemma_str_lt_order(q, q, q);
                        if j > p {
                            lemma_str_lt_order(views(keys@)[p as int], q, q);
                            lemma_str_lt_order(views(keys@)[p as int], views(keys@)[j], q);
                            lemma_str_lt_order(q, views(keys@)[p as int], views(keys@)[j]);
                        }
                        if j == p {
                            assert(views(keys@)[p as int] == keys@[p as int]@);
                        }
                    }
                }
                lemma_absent_path(pre, q);
            }
            let stat = PathStats { path: o.path.clone(), max: o.size, cum: o.size, versions: 1 };
            let key = o.path.clone();
            let ghost kbefore = keys@;
            let ghost before = agg@;
            keys.insert(p, key);
            agg.insert(p, stat);
            proof {
                let kv = views(kbefore);
                assert(views(keys@) =~= kv.take(p as int).push(q) + kv.skip(p as int));
                assert forall|a: int, b: int| 0 <= a < b < keys@.len()
                    implies crate::order::str_lt(#[trigger] views(keys@)[a], #[trigger] views(keys@)[b]) by {
                    let nv = views(keys@);
                    if b < p {
                        assert(nv[a] == kv[a] && nv[b] == kv[b]);
                    } else if b == p {
                        assert(nv[a] == kv[a]);
                    } else if a == p {
                        assert(nv[b] == kv[b - 1]);
                        lemma_str_lt_order(kv[b - 1], q, q);
                        assert(kv[b - 1] != q) by {
                            if kv[b - 1] == q {
                                assert(agg@[b] == before[b - 1]);
                                assert(has_path(pre, q));
                            }
                        }
                    } else if a < p {
                        assert(nv[a] == kv[a] && nv[b] == kv[b - 1]);
                    } else {
                        assert(nv[a] == kv[a - 1] && nv[b] == kv[b - 1]);
                    }
                }
                assert forall|j: int| 0 <= j < keys.len() implies (#[trigger] keys@[j])@ == agg@[j].path@ by {
                    if j < p {
                        assert(keys@[j] == kbefore[j] && agg@[j] == before[j]);
                    } else if j > p {
                        assert(keys@[j] == kbefore[j - 1] && agg@[j] == before[j - 1]);
                    }
                }
                assert forall|j: int| 0 <= j < agg.len() implies stat_matches(post, #[trigger] agg@[j]) by {
                    if j == p {
                        assert(post[i as int].path@ == q);
                    } else {
                        let jj = if j < p { j } else { j - 1 };
                        assert(agg@[j] == before[jj]);
                        assert(stat_matches(pre, before[jj]));
                        assert(before[jj].path@ != q) by {
                            if before[jj].path@ == q {
                                let w = choose|w: int| 0 <= w < pre.len() && #[trigger] pre[w].path@ == before[jj].path@;
                                assert(pre[w].path@ == q);
                            }
                        }
                        let w = choose|w: int| 0 <= w < pre.len() && #[trigger] pre[w].path@ == before[jj].path@;
                        assert(post[w].path@ == before[jj].path@);
                    }
                }
                assert forall|k: int| 0 <= k < i + 1 implies covers(agg@, #[trigger] objs@[k].path@) by {
                    if k == i {
                        assert(agg@[p as int].path@ == objs@[k].path@);
                    } else {
                        assert(covers(before, objs@[k].path@));
                        let j = choose|j: int| 0 <= j < before.len() && #[trigger] before[j].path@ == objs@[k].path@;
                        if j < p {
                            assert(agg@[j].path@ == objs@[k].path@);
                        } else {
                            assert(agg@[j + 1].path@ == objs@[k].path@);
                        }
                    }
                }
            }
        }
        i = i + 1;
    }
    proof {
        assert(objs@.take(i as int) =~= objs@);
        assert(forall|j: int| 0 <= j < agg.len() ==> stat_matches(objs@, #[trigger] agg@[j]));

        crate::strset::lemma_ascending_unique(views(keys@));
        assert forall|a: int, b: int| 0 <= a < agg@.len() && 0 <= b < agg@.len() && a != b
            implies #[trigger] agg@[a].path@ != #[trigger] agg@[b].path@ by {
            assert(views(keys@)[a] == keys@[a]@);
            assert(views(keys@)[b] == keys@[b]@);
        }
        assert forall|k: int| 0 <= k < objs@.len() implies fits(objs@, #[trigger] objs@[k].path@) by {
            let j = choose|j: int| 0 <= j < agg@.len() && #[trigger] agg@[j].path@ == objs@[k].path@;
            assert(stat_matches(objs@, agg@[j]));
        }
    }
    Some(agg)
}

/// Whether the totals of every path fit the counters of `PathStats`.
pub fn paths_fit(objs: &Vec<ObjectRec>) -> (b: bool)
    ensures
        b == forall|i: int| 0 <= i < objs@.len() ==> fits(objs@, #[trigger] objs@[i].path@),
{
    aggregate(objs).is_some()
}

/// Reordering an aggregate keeps it an aggregate.
pub proof fn lemma_permutation_keeps_aggregate(objs: Seq<ObjectRec>, agg: Seq<PathStats>, stats: Seq<PathStats>)
    requires
        aggregated(objs, agg),
        stats.to_multiset() == agg.to_multiset(),
    ensures
        aggregated(objs, stats),
{
    assert(agg.no_duplicates()) by {
        assert forall|a: int, b: int| 0 <= a < agg.len() && 0 <= b < agg.len() && a != b
            implies agg[a] != agg[b] by {
            assert(agg[a].path@ != agg[b].path@);
        }
    }
    agg.lemma_multiset_has_no_duplicates();
    stats.lemma_multiset_has_no_duplicates_conv();
    assert forall|i: int| 0 <= i < stats.len() implies stat_matches(objs, #[trigger] stats[i]) by {
        assert(stats.to_multiset().count(stats[i]) > 0);
        assert(agg.contains(stats[i]));
    }
    assert forall|a: int, b: int| 0 <= a < stats.len() && 0 <= b < stats.len() && a != b
        implies #[trigger] stats[a].path@ != #[trigger] stats[b].path@ by {
        assert(stats.to_multiset().count(stats[a]) > 0);
        assert(stats.to_multiset().count(stats[b]) > 0);
        assert(agg.contains(stats[a]));
        assert(agg.contains(stats[b]));
        let x = choose|x: int| 0 <= x < agg.len() && agg[x] == stats[a];
        let y = choose|y: int| 0 <= y < agg.len() && agg[y] == stats[b];
        if x != y {
            assert(agg[x].path@ != agg[y].path@);
        }
    }
    assert forall|k: int| 0 <= k < objs.len() implies covers(stats, #[trigger] objs[k].path@) by {
        assert(covers(agg, objs[k].path@));
        let j = choose|j: int| 0 <= j < agg.len() && #[trigger] agg[j].path@ == objs[k].path@;
        assert(agg.to_multiset().count(agg[j]) > 0);
        assert(stats.contains(agg[j]));
        let i = choose|i: int| 0 <= i < stats.len() && stats[i] == agg[j];
        assert(stats[i].path@ == objs[k].path@);
    }
}

} // verus!
