//! The data the analysis works on: object names, per-path statistics,
//! the inventory of a repository and the reasons a path is chosen.
use vstd::prelude::*;
use crate::order::{lemma_str_lt_order, str_eq, str_lt};
use crate::strset::{ascending, views, StrSet, TipIndex};
use crate::stats::{aggregate, aggregated, sort_stats, sorted_stats, stable_sorted, SortBy};

verus! {

/// A git object name (hexadecimal).
#[derive(Debug, PartialEq, Eq, Hash)]
pub struct Oid(String);

impl View for Oid {
    type V = Seq<char>;

    closed spec fn view(&self) -> Seq<char> {
        self.0@
    }
}

impl Oid {
    pub fn new(s: &str) -> (r: Oid)
        ensures
            r@ == s@,
    {
        Oid(s.to_owned())
    }

    pub fn as_str(&self) -> (r: &str)
        ensures
            r@ == self@,
    {
        self.0.as_str()
    }

    /// The name as an owned string (what `Display` prints).
    pub fn to_string(&self) -> (r: String)
        ensures
            r@ == self@,
    {
        self.0.clone()
    }
}

impl Clone for Oid {
    fn clone(&self) -> (r: Oid)
        ensures
            r@ == self@,
    {
        Oid(self.0.clone())
    }
}

/// A set of object names; iteration yields them in ascending order.
pub struct OidSet {
    names: StrSet,
}

impl View for OidSet {
    type V = Set<Seq<char>>;

    closed spec fn view(&self) -> Set<Seq<char>> {
        self.names@
    }
}

impl OidSet {
    /// The members in ascending order.
    pub closed spec fn seq(&self) -> Seq<Seq<char>> {
        self.names.seq()
    }

    pub fn new() -> (r: OidSet)
        ensures
            r@ == Set::<Seq<char>>::empty(),
            r.seq() == Seq::<Seq<char>>::empty(),
    {
        OidSet { names: StrSet::new() }
    }

    pub fn insert(&mut self, o: Oid) -> (added: bool)
        ensures
            final(self)@ == old(self)@.insert(o@),
            added == !old(self)@.contains(o@),
    {
        self.names.insert(o.0)
    }

    pub fn contains(&self, o: &Oid) -> (b: bool)
        ensures
            b == self@.contains(o@),
    {
        self.names.contains(o.0.as_str())
    }

    pub fn remove(&mut self, o: &Oid) -> (removed: bool)
        ensures
            final(self)@ == old(self)@.remove(o@),
            removed == old(self)@.contains(o@),
    {
        self.names.remove(o.0.as_str())
    }

    pub fn len(&self) -> (n: usize)
        ensures
            n == self@.len(),
            n == self.seq().len(),
    {
        self.names.len()
    }

    pub fn is_empty(&self) -> (b: bool)
        ensures
            b == (self@.len() == 0),
    {
        self.names.is_empty()
    }

    /// The members, ascending.
    pub fn to_vec(&self) -> (r: Vec<Oid>)
        ensures
            r@.map_values(|o: Oid| o@) == self.seq(),
    {
        let names = self.names.as_slice();
        let mut r: Vec<Oid> = Vec::new();
        let mut i: usize = 0;
        while i < names.len()
            invariant
                i <= names.len(),
                views(names@) == self.seq(),
                r@.map_values(|o: Oid| o@) =~= self.seq().take(i as int),
            decreases names.len() - i,
        {
            let o = Oid(names[i].clone());
            let ghost before = r@;
            r.push(o);
            proof {
                assert(r@ == before.push(o));
                assert(self.seq().take(i + 1) =~= self.seq().take(i as int).push(names@[i as int]@));
                assert(r@.map_values(|o: Oid| o@) =~= before.map_values(|o: Oid| o@).push(o@));
            }
            i = i + 1;
        }
        assert(self.seq().take(i as int) =~= self.seq());
        r
    }
}

impl Clone for OidSet {
    fn clone(&self) -> (r: OidSet)
        ensures
            r@ == self@,
            r.seq() == self.seq(),
    {
        OidSet { names: self.names.clone() }
    }
}

/// Size statistics of one path over the whole history.
#[derive(Debug, PartialEq, Eq)]
pub struct PathStats {
    pub path: String,
    /// Largest single version.
    pub max: u64,
    /// All versions together.
    pub cum: u64,
    pub versions: u32,
}

impl Clone for PathStats {
    fn clone(&self) -> (r: PathStats)
        ensures
            r == *self,
    {
        PathStats { path: self.path.clone(), max: self.max, cum: self.cum, versions: self.versions }
    }
}

/// A blob of the history, with the path it first appeared under.
#[derive(Debug, PartialEq, Eq)]
pub struct ObjectRec {
    pub oid: Oid,
    pub size: u64,
    pub path: String,
}

impl Clone for ObjectRec {
    fn clone(&self) -> (r: ObjectRec)
        ensures
            r.oid@ == self.oid@,
            r.size == self.size,
            r.path@ == self.path@,
    {
        ObjectRec { oid: self.oid.clone(), size: self.size, path: self.path.clone() }
    }
}

/// Everything one analysis works on: path statistics, which branch tips
/// still use which path, what the kept refs hold, and every blob of the history.
pub struct Inventory {
    pub stats: Vec<PathStats>,
    /// path -> branches whose tip still holds it
    pub tips: TipIndex,
    /// blobs in the trees of the kept refs; never removed
    pub keep_blobs: OidSet,
    /// paths in the trees of the kept refs
    pub keep_paths: StrSet,
    pub objects: Vec<ObjectRec>,
}

impl Inventory {
    /// Aggregates the statistics of every path and orders them by `sort`;
    /// tips and kept sets start empty.
    pub fn from_objects(objects: Vec<ObjectRec>, sort: SortBy) -> (inv: Inventory)
        requires
            forall|i: int| 0 <= i < objects@.len() ==> crate::stats::fits(objects@, #[trigger] objects@[i].path@),
        ensures
            aggregated(objects@, inv.stats@),
            sorted_stats(inv.stats@, sort),
            inv.objects@ == objects@,
            inv.tips.paths() == Seq::<Seq<char>>::empty(),
            forall|p: Seq<char>| inv.tips.branches(p) == Seq::<Seq<char>>::empty(),
            inv.keep_blobs@ == Set::<Seq<char>>::empty(),
            inv.keep_paths@ == Set::<Seq<char>>::empty(),
    {
        let agg = match aggregate(&objects) {
            Some(a) => a,
            None => Vec::new(),
        };
        let stats = sort_stats(&agg, sort);
        proof {
            crate::stats::lemma_permutation_keeps_aggregate(objects@, agg@, stats@);
        }
        Inventory {
            stats,
            tips: TipIndex::new(),
            keep_blobs: OidSet::new(),
            keep_paths: StrSet::new(),
            objects,
        }
    }

    /// Orders the statistics: largest first by `by`, then by the other measure,
    /// then by path; entries of equal rank keep their order.
    pub fn sort(&mut self, by: SortBy)
        ensures
            final(self).stats@ == stable_sorted(old(self).stats@, by),
            sorted_stats(final(self).stats@, by),
            final(self).stats@.to_multiset() == old(self).stats@.to_multiset(),
            final(self).tips == old(self).tips,
            final(self).keep_blobs == old(self).keep_blobs,
            final(self).keep_paths == old(self).keep_paths,
            final(self).objects == old(self).objects,
    {
        let sorted = sort_stats(&self.stats, by);
        self.stats = sorted;
    }

    /// Branches whose tip still holds `path`, ascending; none for a path
    /// that no branch tip holds.
    pub fn tip_branches(&self, path: &str) -> (r: Vec<String>)
        ensures
            views(r@) == self.tips.branches(path@),
            ascending(views(r@)),
            !self.tips.paths().contains(path@) ==> r@.len() == 0,
    {
        self.tips.branches_of(path)
    }

    /// Seen in the history but in no kept tree.
    pub fn is_orphan(&self, path: &str) -> (b: bool)
        ensures
            b == !self.keep_paths@.contains(path@),
    {
        !self.keep_paths.contains(path)
    }

    /// The orphan paths, in the order of `stats`.
    pub fn orphans(&self) -> (r: Vec<String>)
        ensures
            views(r@) == views(self.stats@.map_values(|s: PathStats| s.path)).filter(
                |p: Seq<char>| !self.keep_paths@.contains(p),
            ),
    {
        let ghost all = views(self.stats@.map_values(|s: PathStats| s.path));
        let ghost pred = |p: Seq<char>| !self.keep_paths@.contains(p);
        let mut r: Vec<String> = Vec::new();
        let mut i: usize = 0;
        while i < self.stats.len()
            invariant
                i <= self.stats.len(),
                all == views(self.stats@.map_values(|s: PathStats| s.path)),
                pred == (|p: Seq<char>| !self.keep_paths@.contains(p)),
                views(r@) == all.take(i as int).filter(pred),
            decreases self.stats.len() - i,
        {
            proof {
                assert(all.take(i + 1).drop_last() =~= all.take(i as int));
                reveal_with_fuel(Seq::<_>::filter, 1);
            }
            if self.is_orphan(self.stats[i].path.as_str()) {
                let p = self.stats[i].path.clone();
                let ghost before = r@;
                r.push(p);
                assert(views(r@) =~= views(before).push(p@));
            }
            i = i + 1;
        }
        assert(all.take(i as int) =~= all);
        r
    }
}

/// Why a path was chosen.
#[derive(Clone, Copy, Debug, PartialEq, Eq)]
pub enum Reason {
    Orphan,
    Size,
    Suffix,
    Regex,
    Manual,
}

pub open spec fn reason_name(r: Reason) -> Seq<char> {
    match r {
        Reason::Orphan => "orphan"@,
        Reason::Size => "size"@,
        Reason::Suffix => "suffix"@,
        Reason::Regex => "regex"@,
        Reason::Manual => "manual"@,
    }
}

pub open spec fn reason_named(s: Seq<char>) -> Option<Reason> {
    if s == "orphan"@ {
        Some(Reason::Orphan)
    } else if s == "size"@ {
        Some(Reason::Size)
    } else if s == "suffix"@ {
        Some(Reason::Suffix)
    } else if s == "regex"@ {
        Some(Reason::Regex)
    } else if s == "manual"@ {
        Some(Reason::Manual)
    } else {
        None
    }
}

impl Reason {
    /// The name a plan records.
    pub fn as_str(self) -> (s: &'static str)
        ensures
            s@ == reason_name(self),
    {
        match self {
            Reason::Orphan => "orphan",
            Reason::Size => "size",
            Reason::Suffix => "suffix",
            Reason::Regex => "regex",
            Reason::Manual => "manual",
        }
    }

    /// The label shown to the user.
    pub fn label(self) -> (s: &'static str)
        ensures
            s@ == match self {
                Reason::Orphan => "孤儿路径"@,
                Reason::Size => "超阈值"@,
                Reason::Suffix => "包扩展名"@,
                Reason::Regex => "正则命中"@,
                Reason::Manual => "人工选中"@,
            },
    {
        match self {
            Reason::Orphan => "孤儿路径",
            Reason::Size => "超阈值",
            Reason::Suffix => "包扩展名",
            Reason::Regex => "正则命中",
            Reason::Manual => "人工选中",
        }
    }

    /// Reads back a name written by `as_str`.
    pub fn from_name(s: &str) -> (r: Option<Reason>)
        ensures
            r == reason_named(s@),
    {
        if str_eq(s, "orphan") {
            Some(Reason::Orphan)
        } else if str_eq(s, "size") {
            Some(Reason::Size)
        } else if str_eq(s, "suffix") {
            Some(Reason::Suffix)
        } else if str_eq(s, "regex") {
            Some(Reason::Regex)
        } else if str_eq(s, "manual") {
            Some(Reason::Manual)
        } else {
            None
        }
    }

    /// The name as an owned string (what `Display` prints).
    pub fn to_string(self) -> (s: String)
        ensures
            s@ == reason_name(self),
    {
        self.as_str().to_owned()
    }
}

/// Reading back the name of a reason gives the same reason.
pub proof fn lemma_reason_roundtrip(r: Reason)
    ensures
        reason_named(reason_name(r)) == Some(r),
{
    reveal_strlit("orphan");
    reveal_strlit("size");
    reveal_strlit("suffix");
    reveal_strlit("regex");
    reveal_strlit("manual");
    assert("size"@.len() != "orphan"@.len());
    assert("regex"@.len() != "orphan"@.len() && "regex"@.len() != "size"@.len()
        && "regex"@.len() != "suffix"@.len());
    assert("suffix"@[0] != "orphan"@[0] && "suffix"@.len() != "size"@.len());
    assert("manual"@[0] != "orphan"@[0] && "manual"@[0] != "suffix"@[0]
        && "manual"@.len() != "size"@.len() && "manual"@.len() != "regex"@.len());
}

impl std::str::FromStr for Reason {
    type Err = String;

    fn from_str(s: &str) -> (r: Result<Reason, String>)
        ensures
            match reason_named(s@) {
                Some(x) => r == Ok::<Reason, String>(x),
                None => r matches Err(m) && m@ == "未知 reason: "@ + s@,
            },
    {
        match Reason::from_name(s) {
            Some(r) => Ok(r),
            None => {
                let mut m = "未知 reason: ".to_owned();
                crate::text::push_str(&mut m, s);
                Err(m)
            },
        }
    }
}

/// A chosen path and why.
#[derive(Debug, PartialEq, Eq)]
pub struct Pick {
    pub path: String,
    pub reason: Reason,
}

impl Clone for Pick {
    fn clone(&self) -> (r: Pick)
        ensures
            r == *self,
    {
        Pick { path: self.path.clone(), reason: self.reason }
    }
}

/// The blobs to delete and what that reclaims.
pub struct Removal {
    pub remove: OidSet,
    /// blobs of chosen paths kept because a kept tree holds them
    pub kept: usize,
    pub reclaim_bytes: u64,
}

} // verus!
