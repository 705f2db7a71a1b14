//! Sets of strings kept in ascending `str` order.
use vstd::prelude::*;
use crate::order::{compare_str, str_eq, lemma_str_lt_order, str_lt, Rank};

verus! {

/// Whether the strings come in strictly ascending order.
pub open spec fn ascending(s: Seq<Seq<char>>) -> bool {
    forall|i: int, j: int| 0 <= i < j < s.len() ==> str_lt(#[trigger] s[i], #[trigger] s[j])
}

pub open spec fn views(v: Seq<String>) -> Seq<Seq<char>> {
    v.map_values(|s: String| s@)
}

/// Position at which `s` belongs in the ascending sequence `items`:
/// the number of items below it.
pub open spec fn lower_bound(items: Seq<Seq<char>>, s: Seq<char>, p: int) -> bool {
    &&& 0 <= p <= items.len()
    &&& forall|k: int| 0 <= k < p ==> str_lt(#[trigger] items[k], s)
    &&& forall|k: int| p <= k < items.len() ==> !str_lt(#[trigger] items[k], s)
}

/// Ascending strings are pairwise distinct.
pub proof fn lemma_ascending_unique(v: Seq<Seq<char>>)
    requires
        ascending(v),
    ensures
        v.no_duplicates(),
{
    assert forall|i: int, j: int| 0 <= i < v.len() && 0 <= j < v.len() && i != j
        implies v[i] != v[j] by {
        if i < j {
            lemma_str_lt_order(v[i], v[j], v[j]);
        } else {
            lemma_str_lt_order(v[j], v[i], v[i]);
        }
    }
}

/// Two ascending sequences with the same members are the same sequence.
pub proof fn lemma_ascending_same_set(a: Seq<Seq<char>>, b: Seq<Seq<char>>)
    requires
        ascending(a),
        ascending(b),
        a.to_set() == b.to_set(),
    ensures
        a == b,
    decreases a.len(),
{
    if a.len() == 0 {
        if b.len() > 0 {
            assert(b.to_set().contains(b[0]));
        }
        assert(a =~= b);
    } else {
        assert(a.to_set().contains(a[0]));
        assert(b.len() > 0);
        assert(b.to_set().contains(b[0]));
        let j = choose|j: int| 0 <= j < b.len() && b[j] == a[0];
        let i = choose|i: int| 0 <= i < a.len() && a[i] == b[0];
        if a[0] != b[0] {
            assert(i > 0 && j > 0);
            assert(str_lt(a[0], a[i]));
            assert(str_lt(b[0], b[j]));
            lemma_str_lt_order(a[0], b[0], a[0]);
        }
        let a1 = a.drop_first();
        let b1 = b.drop_first();
        lemma_ascending_unique(a);
        lemma_ascending_unique(b);
        assert(ascending(a1)) by {
            assert forall|x: int, y: int| 0 <= x < y < a1.len() implies str_lt(#[trigger] a1[x], #[trigger] a1[y]) by {
                assert(a1[x] == a[x + 1] && a1[y] == a[y + 1]);
            }
        }
        assert(ascending(b1)) by {
            assert forall|x: int, y: int| 0 <= x < y < b1.len() implies str_lt(#[trigger] b1[x], #[trigger] b1[y]) by {
                assert(b1[x] == b[x + 1] && b1[y] == b[y + 1]);
            }
        }
        assert(a1.to_set() =~= b1.to_set()) by {
            assert forall|z: Seq<char>| a1.to_set().contains(z) <==> b1.to_set().contains(z) by {
                if a1.contains(z) {
                    let x = choose|x: int| 0 <= x < a1.len() && a1[x] == z;
                    assert(a[x + 1] == z);
                    assert(a.to_set().contains(z));
                    assert(z != a[0]);
                    let y = choose|y: int| 0 <= y < b.len() && b[y] == z;
                    assert(y != 0);
                    assert(b1[y - 1] == z);
                }
                if b1.contains(z) {
                    let x = choose|x: int| 0 <= x < b1.len() && b1[x] == z;
                    assert(b[x + 1] == z);
                    assert(b.to_set().contains(z));
                    assert(z != b[0]);
                    let y = choose|y: int| 0 <= y < a.len() && a[y] == z;
                    assert(y != 0);
                    assert(a1[y - 1] == z);
                }
            }
        }
        lemma_ascending_same_set(a1, b1);
        assert(a =~= seq![a[0]] + a1);
        assert(b =~= seq![b[0]] + b1);
    }
}

/// The members of `s` in ascending order, each once.
pub open spec fn sorted_members(s: Seq<Seq<char>>) -> Seq<Seq<char>> {
    choose|k: Seq<Seq<char>>| ascending(k) && k.to_set() == s.to_set()
}

/// An ascending sequence with the members of `s` is `sorted_members(s)`.
pub proof fn lemma_sorted_members(s: Seq<Seq<char>>, k: Seq<Seq<char>>)
    requires
        ascending(k),
        k.to_set() == s.to_set(),
    ensures
        sorted_members(s) == k,
{
    let m = sorted_members(s);
    assert(ascending(m) && m.to_set() == s.to_set());
    lemma_ascending_same_set(m, k);
}

/// A set of strings; iteration yields them in ascending order.
pub struct StrSet {
    items: Vec<String>,
}

impl View for StrSet {
    type V = Set<Seq<char>>;

    open spec fn view(&self) -> Set<Seq<char>> {
        self.seq().to_set()
    }
}

/// Finds where `s` belongs in `items`.
pub fn locate(items: &Vec<String>, s: &str) -> (p: usize)
    requires
        ascending(views(items@)),
    ensures
        lower_bound(views(items@), s@, p as int),
{
    let ghost v = views(items@);
    let mut lo: usize = 0;
    let mut hi: usize = items.len();
    while lo < hi
        invariant
            v == views(items@),
            ascending(v),
            0 <= lo <= hi <= items.len(),
            forall|k: int| 0 <= k < lo ==> str_lt(#[trigger] v[k], s@),
            forall|k: int| hi <= k < v.len() ==> !str_lt(#[trigger] v[k], s@),
        decreases hi - lo,
    {
        let mid = lo + (hi - lo) / 2;
        let r = compare_str(items[mid].as_str(), s);
        assert(v[mid as int] == items@[mid as int]@);
        match r {
            Rank::Less => {
                assert forall|k: int| 0 <= k < mid + 1 implies str_lt(#[trigger] v[k], s@) by {
                    if k < mid {
                        lemma_str_lt_order(v[k], v[mid as int], s@);
                    }
                }
                lo = mid + 1;
            },
            _ => {
                assert(!str_lt(v[mid as int], s@)) by {
                    lemma_str_lt_order(v[mid as int], s@, s@);
                }
                assert forall|k: int| mid <= k < v.len() implies !str_lt(#[trigger] v[k], s@) by {
                    if k > mid {
                        lemma_str_lt_order(v[mid as int], v[k], s@);
                        lemma_str_lt_order(s@, v[mid as int], v[k]);
                        lemma_str_lt_order(v[k], s@, v[mid as int]);
                    }
                }
                hi = mid;
            },
        }
    }
    lo
}

impl StrSet {
    #[verifier::type_invariant]
    spec fn inv(self) -> bool {
        ascending(views(self.items@))
    }

    /// The members in ascending order.
    pub closed spec fn seq(&self) -> Seq<Seq<char>> {
        views(self.items@)
    }

    pub fn new() -> (r: StrSet)
        ensures
            r.seq() == Seq::<Seq<char>>::empty(),
            r@ == Set::<Seq<char>>::empty(),
    {
        let r = StrSet { items: Vec::new() };
        assert(r.seq() =~= Seq::<Seq<char>>::empty());
        r
    }

    pub fn len(&self) -> (n: usize)
        ensures
            n == self.seq().len(),
            n == self@.len(),
    {
        proof {
            use_type_invariant(self);
            lemma_ascending_unique(self.seq());
            self.seq().unique_seq_to_set();
        }
        self.items.len()
    }

    pub fn is_empty(&self) -> (b: bool)
        ensures
            b == (self@.len() == 0),
            b == (self.seq().len() == 0),
    {
        self.len() == 0
    }

    pub fn contains(&self, s: &str) -> (b: bool)
        ensures
            b == self@.contains(s@),
    {
        proof {
            use_type_invariant(self);
        }
        let p = locate(&self.items, s);
        let b = p < self.items.len() && str_eq(self.items[p].as_str(), s);
        proof {
            let v = self.seq();
            if self@.contains(s@) {
                let k = choose|k: int| 0 <= k < v.len() && v[k] == s@;
                lemma_str_lt_order(s@, s@, s@);
                if k < p {
                    assert(str_lt(v[k], s@));
                } else if k > p {
                    assert(p < v.len());
                    assert(!str_lt(v[p as int], s@));
                    lemma_str_lt_order(v[p as int], v[k], s@);
                    assert(str_lt(v[p as int], v[k]));
                    lemma_str_lt_order(s@, v[p as int], v[k]);
                }
            }
            if b {
                assert(v[p as int] == s@);
            }
        }
        b
    }

    /// Adds `s`; returns whether it was new.
    pub fn insert(&mut self, s: String) -> (added: bool)
        ensures
            final(self)@ == old(self)@.insert(s@),
            added == !old(self)@.contains(s@),
    {
        proof {
            use_type_invariant(&*self);
        }
        let p = locate(&self.items, s.as_str());
        if p < self.items.len() && str_eq(self.items[p].as_str(), s.as_str()) {
            proof {
                assert(self.seq()[p as int] == s@);
                assert(self@.contains(s@));
                assert(self@.insert(s@) =~= self@);
            }
            false
        } else {
            let ghost old_v = self.seq();
            proof {
                lemma_str_lt_order(s@, s@, s@);
                assert(!old_v.contains(s@)) by {
                    if old_v.contains(s@) {
                        let k = choose|k: int| 0 <= k < old_v.len() && old_v[k] == s@;
                        if k > p {
                            lemma_str_lt_order(old_v[p as int], old_v[k], s@);
                            lemma_str_lt_order(s@, old_v[p as int], old_v[k]);
                        }
                    }
                }
            }
            let mut items = Vec::new();
            std::mem::swap(&mut items, &mut self.items);
            items.insert(p, s);
            let ghost new_v = views(items@);
            proof {
                assert(new_v =~= old_v.take(p as int).push(s@) + old_v.skip(p as int));
                assert forall|i: int, j: int| 0 <= i < j < new_v.len()
                    implies str_lt(#[trigger] new_v[i], #[trigger] new_v[j]) by {
                    if j < p {
                        assert(new_v[i] == old_v[i] && new_v[j] == old_v[j]);
                    } else if j == p {
                        assert(new_v[i] == old_v[i]);
                    } else if i == p {
                        assert(new_v[j] == old_v[j - 1]);
                        assert(!str_lt(old_v[j - 1], s@));
                        lemma_str_lt_order(old_v[j - 1], s@, s@);
                        assert(old_v[j - 1] != s@);
                    } else if i < p {
                        assert(new_v[i] == old_v[i] && new_v[j] == old_v[j - 1]);
                    } else {
                        assert(new_v[i] == old_v[i - 1] && new_v[j] == old_v[j - 1]);
                    }
                }
                assert(new_v.to_set() =~= old_v.to_set().insert(s@)) by {
                    assert forall|x: Seq<char>| new_v.contains(x) <==> old_v.contains(x) || x == s@ by {
                        if new_v.contains(x) {
                            let k = choose|k: int| 0 <= k < new_v.len() && new_v[k] == x;
                            if k < p {
                                assert(old_v[k] == x);
                            } else if k > p {
                                assert(old_v[k - 1] == x);
                            }
                        }
                        if old_v.contains(x) {
                            let k = choose|k: int| 0 <= k < old_v.len() && old_v[k] == x;
                            if k < p {
                                assert(new_v[k] == x);
                            } else {
                                assert(new_v[k + 1] == x);
                            }
                        }
                        if x == s@ {
                            assert(new_v[p as int] == x);
                        }
                    }
                }
            }
            self.items = items;
            true
        }
    }

    /// Takes `s` out; returns whether it was there.
    pub fn remove(&mut self, s: &str) -> (removed: bool)
        ensures
            final(self)@ == old(self)@.remove(s@),
            removed == old(self)@.contains(s@),
    {
        proof {
            use_type_invariant(&*self);
        }
        let p = locate(&self.items, s);
        if p < self.items.len() && str_eq(self.items[p].as_str(), s) {
            let ghost old_v = self.seq();
            proof {
                assert(old_v[p as int] == s@);
            }
            let mut items = Vec::new();
            std::mem::swap(&mut items, &mut self.items);
            items.remove(p);
            let ghost new_v = views(items@);
            proof {
                assert(new_v =~= old_v.take(p as int) + old_v.skip(p + 1));
                assert forall|i: int, j: int| 0 <= i < j < new_v.len()
                    implies str_lt(#[trigger] new_v[i], #[trigger] new_v[j]) by {
                    if j < p {
                        assert(new_v[i] == old_v[i] && new_v[j] == old_v[j]);
                    } else if i < p {
                        assert(new_v[i] == old_v[i] && new_v[j] == old_v[j + 1]);
                    } else {
                        assert(new_v[i] == old_v[i + 1] && new_v[j] == old_v[j + 1]);
                    }
                }
                assert(new_v.to_set() =~= old_v.to_set().remove(s@)) by {
                    assert forall|x: Seq<char>| new_v.contains(x) <==> old_v.contains(x) && x != s@ by {
                        if new_v.contains(x) {
                            let k = choose|k: int| 0 <= k < new_v.len() && new_v[k] == x;
                            if k < p {
                                assert(old_v[k] == x);
                            } else {
                                assert(old_v[k + 1] == x);
                            }
                        }
                        if old_v.contains(x) && x != s@ {
                            let k = choose|k: int| 0 <= k < old_v.len() && old_v[k] == x;
                            if k < p {
                                assert(new_v[k] == x);
                            } else {
                                assert(k != p);
                                assert(new_v[k - 1] == x);
                            }
                        }
                    }
                }
            }
            self.items = items;
            true
        } else {
            proof {
                let v = self.seq();
                assert(!self@.contains(s@)) by {
                    if v.contains(s@) {
                        let k = choose|k: int| 0 <= k < v.len() && v[k] == s@;
                        lemma_str_lt_order(s@, s@, s@);
                        if k > p {
                            lemma_str_lt_order(v[p as int], v[k], s@);
                            lemma_str_lt_order(s@, v[p as int], v[k]);
                        }
                    }
                }
                assert(self@.remove(s@) =~= self@);
            }
            false
        }
    }

    /// The members, ascending.
    pub fn as_slice(&self) -> (r: &[String])
        ensures
            views(r@) == self.seq(),
    {
        self.items.as_slice()
    }

    /// A copy of the members, ascending.
    pub fn to_vec(&self) -> (r: Vec<String>)
        ensures
            views(r@) == self.seq(),
            ascending(views(r@)),
    {
        proof {
            use_type_invariant(self);
        }
        let mut r: Vec<String> = Vec::new();
        let mut i: usize = 0;
        while i < self.items.len()
            invariant
                i <= self.items.len(),
                views(r@) =~= self.seq().take(i as int),
            decreases self.items.len() - i,
        {
            let c = self.items[i].clone();
            assert(self.seq().take(i + 1) =~= self.seq().take(i as int).push(self.items@[i as int]@));
            let ghost before = r@;
            r.push(c);
            assert(r@ == before.push(c));
            assert(views(r@) =~= views(before).push(c@));
            i = i + 1;
        }
        assert(self.seq().take(i as int) =~= self.seq());
        r
    }
}

impl Clone for StrSet {
    fn clone(&self) -> (r: StrSet)
        ensures
            r.seq() == self.seq(),
            r@ == self@,
    {
        proof {
            use_type_invariant(self);
        }
        let items = self.to_vec();
        StrSet { items }
    }
}

/// Which branches still hold each path: a map from path to a set of
/// branch names, both kept in ascending order.
pub struct TipIndex {
    keys: Vec<String>,
    sets: Vec<StrSet>,
}

impl TipIndex {
    #[verifier::type_invariant]
    spec fn inv(self) -> bool {
        &&& ascending(views(self.keys@))
        &&& self.keys.len() == self.sets.len()
    }

    /// The indexed paths, ascending.
    pub closed spec fn paths(&self) -> Seq<Seq<char>> {
        views(self.keys@)
    }

    /// The branches recorded for path `p`, ascending (empty when `p` is absent).
    pub closed spec fn branches(&self, p: Seq<char>) -> Seq<Seq<char>> {
        if views(self.keys@).contains(p) {
            self.sets@[views(self.keys@).index_of(p)].seq()
        } else {
            Seq::empty()
        }
    }

    pub fn new() -> (r: TipIndex)
        ensures
            r.paths() == Seq::<Seq<char>>::empty(),
            forall|p: Seq<char>| r.branches(p) == Seq::<Seq<char>>::empty(),
    {
        let r = TipIndex { keys: Vec::new(), sets: Vec::new() };
        assert(r.paths() =~= Seq::<Seq<char>>::empty());
        r
    }

    /// Records that branch `b` still holds `path`.
    pub fn insert(&mut self, path: &str, b: String)
        ensures
            final(self).paths().to_set() == old(self).paths().to_set().insert(path@),
            final(self).branches(path@).to_set() == old(self).branches(path@).to_set().insert(b@),
            forall|q: Seq<char>| q != path@ ==> final(self).branches(q) == old(self).branches(q),
    {
        proof {
            use_type_invariant(&*self);
        }
        let mut me = TipIndex { keys: Vec::new(), sets: Vec::new() };
        std::mem::swap(&mut me, self);
        let TipIndex { mut keys, mut sets } = me;
        let ghost kv = views(keys@);
        let ghost old_sets = sets@;
        proof {
            lemma_ascending_unique(kv);
        }
        let p = locate(&keys, path);
        if p < keys.len() && str_eq(keys[p].as_str(), path) {
            let mut set = StrSet::new();
            std::mem::swap(&mut set, &mut sets[p]);
            let ghost old_set = set;
            set.insert(b);
            sets.set(p, set);
            proof {
                assert(kv[p as int] == path@);
                lemma_index_of_unique(kv, p as int);
                assert forall|q: Seq<char>| q != path@ implies #[trigger] branches_in(kv, sets@, q)
                    == branches_in(kv, old_sets, q) by {
                    if kv.contains(q) {
                        let k = kv.index_of(q);
                        assert(k != p);
                    }
                }
            }
            *self = TipIndex { keys, sets };
            proof {
                assert(self.paths().to_set() =~= kv.to_set().insert(path@));
                assert(forall|q: Seq<char>| #[trigger] self.branches(q) == branches_in(kv, sets@, q));
                assert(forall|q: Seq<char>| #[trigger] old(self).branches(q) == branches_in(kv, old_sets, q));
            }
        } else {
            proof {
                lemma_str_lt_order(path@, path@, path@);
                assert(!kv.contains(path@)) by {
                    if kv.contains(path@) {
                        let k = choose|k: int| 0 <= k < kv.len() && kv[k] == path@;
                        if k > p {
                            lemma_str_lt_order(kv[p as int], kv[k], path@);
                            lemma_str_lt_order(path@, kv[p as int], kv[k]);
                        }
                    }
                }
            }
            let mut set = StrSet::new();
            set.insert(b);
            keys.insert(p, path.to_owned());
            sets.insert(p, set);
            let ghost nv = views(keys@);
            proof {
                assert(nv =~= kv.take(p as int).push(path@) + kv.skip(p as int));
                assert forall|i: int, j: int| 0 <= i < j < nv.len()
                    implies str_lt(#[trigger] nv[i], #[trigger] nv[j]) by {
                    if j < p {
                        assert(nv[i] == kv[i] && nv[j] == kv[j]);
                    } else if j == p {
                        assert(nv[i] == kv[i]);
                    } else if i == p {
                        assert(nv[j] == kv[j - 1]);
                        lemma_str_lt_order(kv[j - 1], path@, path@);
                    } else if i < p {
                        assert(nv[i] == kv[i] && nv[j] == kv[j - 1]);
                    } else {
                        assert(nv[i] == kv[i - 1] && nv[j] == kv[j - 1]);
                    }
                }
                lemma_ascending_unique(nv);
                lemma_index_of_unique(nv, p as int);
                assert forall|q: Seq<char>| q != path@ implies #[trigger] branches_in(nv, sets@, q)
                    == branches_in(kv, old_sets, q) by {
                    if kv.contains(q) {
                        let k = kv.index_of(q);
                        let nk = if k < p { k } else { k + 1 };
                        assert(nv[nk] == q);
                        lemma_index_of_unique(nv, nk);
                        lemma_index_of_unique(kv, k);
                    } else {
                        assert(!nv.contains(q)) by {
                            if nv.contains(q) {
                                let k = choose|k: int| 0 <= k < nv.len() && nv[k] == q;
                                if k < p {
                                    assert(kv[k] == q);
                                } else if k > p {
                                    assert(kv[k - 1] == q);
                                }
                            }
                        }
                    }
                }
                assert(nv.to_set() =~= kv.to_set().insert(path@)) by {
                    assert forall|x: Seq<char>| nv.contains(x) <==> kv.contains(x) || x == path@ by {
                        if nv.contains(x) {
                            let k = choose|k: int| 0 <= k < nv.len() && nv[k] == x;
                            if k < p {
                                assert(kv[k] == x);
                            } else if k > p {
                                assert(kv[k - 1] == x);
                            }
                        }
                        if kv.contains(x) {
                            let k = choose|k: int| 0 <= k < kv.len() && kv[k] == x;
                            if k < p {
                                assert(nv[k] == x);
                            } else {
                                assert(nv[k + 1] == x);
                            }
                        }
                        if x == path@ {
                            assert(nv[p as int] == x);
                        }
                    }
                }
                assert(sets@[p as int].seq().to_set() =~= Set::<Seq<char>>::empty().insert(b@));
            }
            *self = TipIndex { keys, sets };
            proof {
                assert(forall|q: Seq<char>| #[trigger] self.branches(q) == branches_in(nv, sets@, q));
                assert(forall|q: Seq<char>| #[trigger] old(self).branches(q) == branches_in(kv, old_sets, q));
                assert(old(self).branches(path@) =~= Seq::<Seq<char>>::empty());
                assert(Seq::<Seq<char>>::empty().to_set() =~= Set::<Seq<char>>::empty());
            }
        }
    }

    /// The branches recorded for `path`, ascending.
    pub fn branches_of(&self, path: &str) -> (r: Vec<String>)
        ensures
            views(r@) == self.branches(path@),
            ascending(views(r@)),
            !self.paths().contains(path@) ==> r@.len() == 0,
    {
        proof {
            use_type_invariant(self);
            lemma_ascending_unique(views(self.keys@));
        }
        let p = locate(&self.keys, path);
        if p < self.keys.len() && str_eq(self.keys[p].as_str(), path) {
            proof {
                lemma_index_of_unique(views(self.keys@), p as int);
            }
            self.sets[p].to_vec()
        } else {
            proof {
                let kv = views(self.keys@);
                lemma_str_lt_order(path@, path@, path@);
                assert(!kv.contains(path@)) by {
                    if kv.contains(path@) {
                        let k = choose|k: int| 0 <= k < kv.len() && kv[k] == path@;
                        if k > p {
                            lemma_str_lt_order(kv[p as int], kv[k], path@);
                            lemma_str_lt_order(path@, kv[p as int], kv[k]);
                        }
                    }
                }
            }
            let r: Vec<String> = Vec::new();
            assert(views(r@) =~= Seq::<Seq<char>>::empty());
            r
        }
    }
}

pub open spec fn branches_in(keys: Seq<Seq<char>>, sets: Seq<StrSet>, p: Seq<char>) -> Seq<Seq<char>> {
    if keys.contains(p) {
        sets[keys.index_of(p)].seq()
    } else {
        Seq::empty()
    }
}

/// In a sequence without repeats, an element's index is its position.
pub proof fn lemma_index_of_unique<A>(s: Seq<A>, k: int)
    requires
        s.no_duplicates(),
        0 <= k < s.len(),
    ensures
        s.contains(s[k]),
        s.index_of(s[k]) == k,
{
    assert(s.contains(s[k]));
    let j = s.index_of(s[k]);
    assert(s[j] == s[k]);
}

} // verus!
