//! Building the inventory of a repository: every blob of its history, and
//! what the trees of the kept refs still hold.
use vstd::prelude::*;
use crate::error::ToolError;
use crate::git::{GitLog, is_read, reads_only, 
    added, batch_check_args, batch_entries, captured, extends, for_each_ref, history_calls, history_objects, ls_tree_blobs,
    ls_tree_entries, object_view, oid_path_view, one_more, ref_lines, ref_list_args, rev_list_args, str_views, tree_list_args, Git,
    GitCall,
};
use crate::text::{split_seq, utf8_lossy};
use vstd::seq_lib::seq_to_set_distributes_over_add;
use crate::model::{Inventory, ObjectRec, Oid};
use crate::removal::reclaim_of;
use crate::stats::{aggregated, count_of, cum_of, fits, paths_fit, sorted_stats, SortBy};
use crate::strset::{ascending, views, StrSet};
use crate::text::{has_prefix, strip_prefix_text};

verus! {

/// What is kept: the trees of `branch_refs` give the tip index and the kept
/// blobs; those of `extra_refs` (such as `refs/tags/*`) only add kept blobs.
pub struct KeepRefs {
    pub branch_refs: Vec<String>,
    /// Taken off each branch ref to give the branch's display name
    /// (`refs/remotes/origin/` or `refs/heads/`).
    pub branch_prefix: String,
    pub extra_refs: Vec<String>,
}

/// Why an inventory could not be built.
#[derive(Debug)]
pub enum BuildError {
    /// No branch ref to keep.
    NoBranches,
    /// The totals of some path do not fit the counters of its statistics.
    Oversized,
    /// A git call failed.
    Git(ToolError),
}

/// The ascending, duplicate-free list of the strings of `all`.
pub fn sorted_unique(all: &[String]) -> (r: Vec<String>)
    ensures
        ascending(views(r@)),
        views(r@).to_set() == views(all@).to_set(),
{
    let mut set = StrSet::new();
    let mut i: usize = 0;
    while i < all.len()
        invariant
            i <= all.len(),
            set@ == views(all@).take(i as int).to_set(),
        decreases all.len() - i,
    {
        set.insert(all[i].clone());
        assert(views(all@).take(i + 1) =~= views(all@).take(i as int).push(all@[i as int]@));
        proof {
            views(all@).take(i as int).lemma_push_to_set_commute(all@[i as int]@);
        }
        i = i + 1;
    }
    assert(views(all@).take(i as int) =~= views(all@));
    set.to_vec()
}

/// The refs in a list of `for-each-ref` outputs, all together.
pub open spec fn listed_refs(outs: Seq<Seq<u8>>) -> Set<Seq<char>>
    decreases outs.len(),
{
    if outs.len() == 0 {
        Set::empty()
    } else {
        listed_refs(outs.drop_last()) + ref_lines(utf8_lossy(outs.last())).to_set()
    }
}

/// What the calls `t` printed (empty for a failed call).
pub open spec fn call_outs(t: Seq<GitCall>) -> Seq<Seq<u8>> {
    t.map_values(
        |c: GitCall|
            match c.out {
                Some(o) => o,
                None => Seq::empty(),
            },
    )
}

/// `t` are `for-each-ref` calls in `repo`, one for each of the first
/// `t.len()` of `globs` in order, all but the last successful.
pub open spec fn glob_calls(t: Seq<GitCall>, repo: Seq<char>, globs: Seq<Seq<char>>) -> bool {
    &&& t.len() <= globs.len()
    &&& forall|k: int| 0 <= k < t.len() ==> captured(#[trigger] t[k], repo, ref_list_args(seq![globs[k]]), None)
    &&& forall|k: int| 0 <= k < t.len() - 1 ==> (#[trigger] t[k]).out is Some
}

/// The refs matching any of `globs`, ascending and without duplicates: one
/// `for-each-ref` listing per glob, in order, stopping at the first that fails.
pub fn expand_globs<G: Git>(g: &mut GitLog<G>, repo: &str, globs: &[String]) -> (r: Result<Vec<String>, ToolError>)
    ensures
        extends(old(g).calls(), final(g).calls()),
        glob_calls(added(old(g).calls(), final(g).calls()), repo@, views(globs@)),
        r is Err <==> added(old(g).calls(), final(g).calls()).len() > 0 && added(old(g).calls(), final(g).calls()).last().out is None,
        r matches Ok(v) ==> ascending(views(v@)) && added(old(g).calls(), final(g).calls()).len() == globs@.len() && views(v@).to_set()
            == listed_refs(call_outs(added(old(g).calls(), final(g).calls()))),
{
    let ghost c0 = g.calls();
    let mut all: Vec<String> = Vec::new();
    let mut i: usize = 0;
    proof {
        assert(added(c0, g.calls()) =~= Seq::<GitCall>::empty());
        assert(g.calls().take(c0.len() as int) =~= c0);
        assert(call_outs(added(c0, g.calls())) =~= Seq::<Seq<u8>>::empty());
    }
    while i < globs.len()
        invariant
            i <= globs.len(),
            c0 == old(g).calls(),
            extends(c0, g.calls()),
            added(c0, g.calls()).len() == i,
            glob_calls(added(c0, g.calls()), repo@, views(globs@)),
            forall|k: int| 0 <= k < i ==> (#[trigger] added(c0, g.calls())[k]).out is Some,
            views(all@).to_set() == listed_refs(call_outs(added(c0, g.calls()))),
        decreases globs.len() - i,
    {
        let pats = [globs[i].as_str()];
        let ghost before = g.calls();
        let listed = for_each_ref(g, repo, pats.as_slice());
        let ghost t0 = added(c0, before);
        let ghost t1 = added(c0, g.calls());
        proof {
            assert(g.calls().take(c0.len() as int) =~= before.take(c0.len() as int));
            assert(t1 =~= t0.push(g.calls().last()));
            assert(str_views(pats@) =~= seq![views(globs@)[i as int]]);
            assert forall|k: int| 0 <= k < t1.len() implies captured(#[trigger] t1[k], repo@, ref_list_args(seq![views(globs@)[k]]), None) by {
                if k < t0.len() {
                    assert(t1[k] == t0[k]);
                }
            }
            assert forall|k: int| 0 <= k < t1.len() - 1 implies (#[trigger] t1[k]).out is Some by {
                assert(t1[k] == t0[k]);
            }
        }
        let mut found = match listed {
            Ok(f) => f,
            Err(e) => {
                return Err(e);
            },
        };
        let ghost o = g.calls().last().out->0;
        let ghost prev = all@;
        let ghost fv = views(found@);
        all.append(&mut found);
        proof {
            assert(views(all@) =~= views(prev) + fv);
            seq_to_set_distributes_over_add(views(prev), fv);
            assert(call_outs(t1) =~= call_outs(t0).push(o));
            assert(call_outs(t1).drop_last() =~= call_outs(t0));
            assert forall|k: int| 0 <= k < i + 1 implies (#[trigger] t1[k]).out is Some by {
                if k < i {
                    assert(t1[k] == t0[k]);
                }
            }
        }
        i = i + 1;
    }
    let v = sorted_unique(all.as_slice());
    proof {
        if globs@.len() == 0 {
            assert(views(all@).to_set() =~= Set::<Seq<char>>::empty());
        }
    }
    Ok(v)
}

/// The object names of a tree listing.
pub open spec fn listed_oids(blobs: Seq<(Oid, String)>) -> Set<Seq<char>> {
    Set::new(|o: Seq<char>| exists|i: int| 0 <= i < blobs.len() && #[trigger] blobs[i].0@ == o)
}

/// The paths of a tree listing.
pub open spec fn listed_paths(blobs: Seq<(Oid, String)>) -> Set<Seq<char>> {
    Set::new(|p: Seq<char>| exists|i: int| 0 <= i < blobs.len() && #[trigger] blobs[i].1@ == p)
}

/// The branches recorded for `q` once `branch` is recorded for the paths of a listing.
pub open spec fn with_branch(before: Set<Seq<char>>, q: Seq<char>, paths: Set<Seq<char>>, branch: Option<Seq<char>>) -> Set<Seq<char>> {
    match branch {
        Some(b) => if paths.contains(q) {
            before.insert(b)
        } else {
            before
        },
        None => before,
    }
}

/// Every path that a branch tip still holds is a kept path: such a path is
/// never an orphan.
pub open spec fn tips_kept(inv: Inventory) -> bool {
    forall|p: Seq<char>| #[trigger] inv.tips.branches(p).len() > 0 ==> inv.keep_paths@.contains(p)
}

/// Records the tree listing of a kept ref: its blobs and paths are kept, and,
/// for a branch, the branch is recorded as holding each of its paths.
pub fn record_tree(inv: &mut Inventory, branch: Option<&str>, blobs: &[(Oid, String)])
    ensures
        final(inv).keep_blobs@ == old(inv).keep_blobs@.union(listed_oids(blobs@)),
        final(inv).keep_paths@ == old(inv).keep_paths@.union(listed_paths(blobs@)),
        forall|q: Seq<char>|
            #[trigger] final(inv).tips.branches(q).to_set() == with_branch(
                old(inv).tips.branches(q).to_set(),
                q,
                listed_paths(blobs@),
                match branch {
                    Some(b) => Some(b@),
                    None => None,
                },
            ),
        branch is None ==> final(inv).tips == old(inv).tips,
        final(inv).stats == old(inv).stats,
        final(inv).objects == old(inv).objects,
        tips_kept(*old(inv)) ==> tips_kept(*final(inv)),
{
    let ghost b0 = inv.keep_blobs@;
    let ghost p0 = inv.keep_paths@;
    let ghost t0 = inv.tips;
    let ghost bv = match branch {
        Some(b) => Some(b@),
        None => None::<Seq<char>>,
    };
    let mut i: usize = 0;
    while i < blobs.len()
        invariant
            i <= blobs.len(),
            inv.keep_blobs@ == b0.union(listed_oids(blobs@.take(i as int))),
            inv.keep_paths@ == p0.union(listed_paths(blobs@.take(i as int))),
            forall|q: Seq<char>|
                #[trigger] inv.tips.branches(q).to_set() == with_branch(
                    t0.branches(q).to_set(),
                    q,
                    listed_paths(blobs@.take(i as int)),
                    bv,
                ),
            branch is None ==> inv.tips == t0,
            bv == (match branch {
                Some(b) => Some(b@),
                None => None::<Seq<char>>,
            }),
            inv.stats == old(inv).stats,
            inv.objects == old(inv).objects,
        decreases blobs.len() - i,
    {
        let (oid, path) = (&blobs[i].0, &blobs[i].1);
        let ghost before_t = inv.tips;
        let ghost pre = blobs@.take(i as int);
        let ghost post = blobs@.take(i + 1);
        proof {
            assert(post =~= pre.push(blobs@[i as int]));
            assert(listed_oids(post) =~= listed_oids(pre).insert(oid@)) by {
                assert forall|o: Seq<char>| listed_oids(post).contains(o) implies listed_oids(pre).insert(oid@).contains(o) by {
                    let j = choose|j: int| 0 <= j < post.len() && #[trigger] post[j].0@ == o;
                    if j < i {
                        assert(pre[j].0@ == o);
                    } else {
                        assert(post[j] == blobs@[i as int]);
                    }
                }
                assert forall|o: Seq<char>| listed_oids(pre).insert(oid@).contains(o) implies listed_oids(post).contains(o) by {
                    if o == oid@ {
                        assert(post[i as int].0@ == o);
                    } else {
                        let j = choose|j: int| 0 <= j < pre.len() && #[trigger] pre[j].0@ == o;
                        assert(post[j].0@ == o);
                    }
                }
            }
            assert(listed_paths(post) =~= listed_paths(pre).insert(path@)) by {
                assert forall|p: Seq<char>| listed_paths(post).contains(p) implies listed_paths(pre).insert(path@).contains(p) by {
                    let j = choose|j: int| 0 <= j < post.len() && #[trigger] post[j].1@ == p;
                    if j < i {
                        assert(pre[j].1@ == p);
                    }
                }
                assert forall|p: Seq<char>| listed_paths(pre).insert(path@).contains(p) implies listed_paths(post).contains(p) by {
                    if p == path@ {
                        assert(post[i as int].1@ == p);
                    } else {
                        let j = choose|j: int| 0 <= j < pre.len() && #[trigger] pre[j].1@ == p;
                        assert(post[j].1@ == p);
                    }
                }
            }
        }
        match branch {
            Some(b) => {
                inv.tips.insert(path.as_str(), b.to_owned());
            },
            None => {},
        }
        inv.keep_blobs.insert(oid.clone());
        inv.keep_paths.insert(path.clone());
        proof {
            assert(inv.keep_blobs@ =~= b0.union(listed_oids(post)));
            assert(inv.keep_paths@ =~= p0.union(listed_paths(post)));
            assert forall|q: Seq<char>|
                #[trigger] inv.tips.branches(q).to_set() == with_branch(t0.branches(q).to_set(), q, listed_paths(post), bv) by {
                assert(before_t.branches(q).to_set() == with_branch(t0.branches(q).to_set(), q, listed_paths(pre), bv));
                if bv is Some && q == path@ {
                    assert(with_branch(t0.branches(q).to_set(), q, listed_paths(post), bv) =~= with_branch(
                        t0.branches(q).to_set(),
                        q,
                        listed_paths(pre),
                        bv,
                    ).insert(bv->0));
                }
            }
        }
        i = i + 1;
    }
    assert(blobs@.take(i as int) =~= blobs@);
    proof {
        if tips_kept(*old(inv)) {
            assert forall|q: Seq<char>| #[trigger] inv.tips.branches(q).len() > 0 implies inv.keep_paths@.contains(q) by {
                let now = inv.tips.branches(q);
                assert(now.contains(now[0]));
                assert(now.to_set().contains(now[0]));
                let before = t0.branches(q);
                if !listed_paths(blobs@).contains(q) || bv is None {
                    assert(before.to_set().contains(now[0]));
                    let k = choose|k: int| 0 <= k < before.len() && before[k] == now[0];
                    assert(before.len() > 0);
                    assert(old(inv).keep_paths@.contains(q));
                }
            }
        }
    }
}

/// Total size of all blobs.
pub open spec fn total_size(objs: Seq<ObjectRec>) -> nat
    decreases objs.len(),
{
    if objs.len() == 0 {
        0
    } else {
        total_size(objs.drop_last()) + objs.last().size as nat
    }
}

/// The sizes of the whole history add up within 64 bits.
pub open spec fn history_fits(objs: Seq<ObjectRec>) -> bool {
    total_size(objs) <= u64::MAX
}

/// A history whose sizes add up within 64 bits, with no path occurring more
/// than `u32::MAX` times, fits the counters of every path.
pub proof fn lemma_history_fits_paths(objs: Seq<ObjectRec>)
    requires
        history_fits(objs),
        forall|i: int| 0 <= i < objs.len() ==> count_of(objs, #[trigger] objs[i].path@) <= u32::MAX,
    ensures
        all_fit(objs),
{
    assert forall|i: int| 0 <= i < objs.len() implies fits(objs, #[trigger] objs[i].path@) by {
        lemma_cum_bounded(objs, objs[i].path@);
    }
}

proof fn lemma_cum_bounded(objs: Seq<ObjectRec>, p: Seq<char>)
    ensures
        cum_of(objs, p) <= total_size(objs),
    decreases objs.len(),
{
    if objs.len() > 0 {
        lemma_cum_bounded(objs.drop_last(), p);
    }
}

/// What a removal reclaims fits in 64 bits when the whole history does.
pub proof fn lemma_reclaim_fits(objs: Seq<ObjectRec>, sel: Set<Seq<char>>, keep: Set<Seq<char>>)
    requires
        history_fits(objs),
    ensures
        reclaim_of(objs, sel, keep) <= u64::MAX,
{
    lemma_reclaim_bounded(objs, sel, keep);
}

proof fn lemma_reclaim_bounded(objs: Seq<ObjectRec>, sel: Set<Seq<char>>, keep: Set<Seq<char>>)
    ensures
        reclaim_of(objs, sel, keep) <= total_size(objs),
    decreases objs.len(),
{
    if objs.len() > 0 {
        lemma_reclaim_bounded(objs.drop_last(), sel, keep);
    }
}

/// Whether the history fits the 64-bit byte counters (see `history_fits`).
pub fn fits_history(objs: &Vec<ObjectRec>) -> (b: bool)
    ensures
        b == history_fits(objs@),
{
    let mut total: u64 = 0;
    let mut i: usize = 0;
    while i < objs.len()
        invariant
            i <= objs.len(),
            total == total_size(objs@.take(i as int)),
        decreases objs.len() - i,
    {
        assert(objs@.take(i + 1).drop_last() =~= objs@.take(i as int));
        match total.checked_add(objs[i].size) {
            Some(t) => {
                total = t;
            },
            None => {
                proof {
                    lemma_total_prefix(objs@, i + 1);
                }
                return false;
            },
        }
        i = i + 1;
    }
    assert(objs@.take(i as int) =~= objs@);
    true
}

proof fn lemma_total_prefix(objs: Seq<ObjectRec>, n: int)
    requires
        0 <= n <= objs.len(),
    ensures
        total_size(objs.take(n)) <= total_size(objs),
    decreases objs.len(),
{
    if n < objs.len() {
        assert(objs.drop_last().take(n) =~= objs.take(n));
        lemma_total_prefix(objs.drop_last(), n);
    } else {
        assert(objs.take(n) =~= objs);
    }
}

/// The display name of branch ref `r`: without `prefix` where it begins with it.
pub open spec fn branch_label(r: Seq<char>, prefix: Seq<char>) -> Seq<char> {
    if has_prefix(r, prefix) {
        r.skip(prefix.len() as int)
    } else {
        r
    }
}

fn label_of(r: &str, prefix: &str) -> (l: String)
    ensures
        l@ == branch_label(r@, prefix@),
{
    match strip_prefix_text(r, prefix) {
        Some(t) => t,
        None => r.to_owned(),
    }
}

/// The blobs of several tree listings together.
pub open spec fn kept_oids(ls: Seq<Seq<(Oid, String)>>) -> Set<Seq<char>>
    decreases ls.len(),
{
    if ls.len() == 0 {
        Set::empty()
    } else {
        kept_oids(ls.drop_last()).union(listed_oids(ls.last()))
    }
}

/// The paths of several tree listings together.
pub open spec fn kept_paths(ls: Seq<Seq<(Oid, String)>>) -> Set<Seq<char>>
    decreases ls.len(),
{
    if ls.len() == 0 {
        Set::empty()
    } else {
        kept_paths(ls.drop_last()).union(listed_paths(ls.last()))
    }
}

/// The branches whose listing (the first `labels.len()` of `ls`, one per
/// branch) holds path `q`.
pub open spec fn tip_labels(ls: Seq<Seq<(Oid, String)>>, labels: Seq<Seq<char>>, q: Seq<char>) -> Set<Seq<char>> {
    Set::new(
        |b: Seq<char>|
            exists|i: int| 0 <= i < labels.len() && i < ls.len() && labels[i] == b && #[trigger] listed_paths(ls[i]).contains(q),
    )
}

/// The display names of the branch refs.
pub open spec fn branch_labels(keep: KeepRefs) -> Seq<Seq<char>> {
    keep.branch_refs@.map_values(|r: String| branch_label(r@, keep.branch_prefix@))
}

/// The totals of every path of `objs` fit the counters of `PathStats`.
pub open spec fn all_fit(objs: Seq<ObjectRec>) -> bool {
    forall|i: int| 0 <= i < objs.len() ==> fits(objs, #[trigger] objs[i].path@)
}

/// The refs whose trees `build` lists, in order: the branch refs, then the
/// extra refs.
pub open spec fn listing_refs(keep: KeepRefs) -> Seq<Seq<char>> {
    views(keep.branch_refs@) + views(keep.extra_refs@)
}

/// `t` are `ls-tree -r -z` calls in `repo` for the first `t.len()` of `refs`,
/// in order.
pub open spec fn tree_list_calls(t: Seq<GitCall>, repo: Seq<char>, refs: Seq<Seq<char>>) -> bool {
    &&& t.len() <= refs.len()
    &&& forall|k: int| 0 <= k < t.len() ==> captured(#[trigger] t[k], repo, tree_list_args(refs[k]), None)
}

/// `ls` are the blob listings that the calls `t` printed, one per call.
pub open spec fn listed_by(ls: Seq<Seq<(Oid, String)>>, t: Seq<GitCall>) -> bool {
    &&& ls.len() == t.len()
    &&& forall|k: int|
        0 <= k < t.len() ==> ((#[trigger] t[k]).out matches Some(o) && oid_path_view(ls[k]) == ls_tree_entries(
            split_seq(o, 0u8),
        ))
}

/// The calls `t` that `build` makes in `repo` for `keep` (with at least one
/// branch ref) and how they decide its outcome `r`: `rev-list`, `cat-file`
/// fed its output, then one `ls-tree` per listed ref, stopping at the first
/// failure (which gives `Git`); `Oversized` when the history read does not
/// fit the counters, and then no tree is listed.
pub open spec fn build_calls(t: Seq<GitCall>, repo: Seq<char>, keep: KeepRefs, r: Result<Inventory, BuildError>) -> bool {
    &&& t.len() >= 1
    &&& captured(t[0], repo, rev_list_args(), None)
    &&& forall|k: int| 0 <= k < t.len() - 1 ==> (#[trigger] t[k]).out is Some
    &&& (r matches Err(BuildError::Git(_))) <==> t.last().out is None
    &&& match t[0].out {
        None => t.len() == 1,
        Some(listing) => {
            &&& t.len() >= 2
            &&& captured(t[1], repo, batch_check_args(), Some(listing))
            &&& match t[1].out {
                None => t.len() == 2,
                Some(o) => {
                    &&& (r matches Err(BuildError::Oversized)) <==> t.len() == 2
                    &&& t.len() == 2 ==> exists|objs: Seq<ObjectRec>|
                        #[trigger] object_view(objs) == batch_entries(split_seq(o, 10u8)) && !all_fit(objs)
                    &&& tree_list_calls(t.skip(2), repo, listing_refs(keep))
                    &&& r matches Ok(inv) ==> object_view(inv.objects@) == batch_entries(split_seq(o, 10u8)) && t.len() == 2
                        + listing_refs(keep).len()
                },
            }
        },
    }
}

/// Building an inventory only reads the repository: every call that
/// `build_calls` describes is a read.
pub proof fn lemma_build_reads_only(t: Seq<GitCall>, repo: Seq<char>, keep: KeepRefs, r: Result<Inventory, BuildError>)
    requires
        build_calls(t, repo, keep, r),
    ensures
        reads_only(t),
{
    assert forall|k: int| 0 <= k < t.len() implies !(#[trigger] t[k]).through && is_read(t[k].args) by {
        if k >= 2 {
            let ts = t.skip(2);
            assert(ts[k - 2] == t[k]);
            assert(captured(ts[k - 2], repo, tree_list_args(listing_refs(keep)[k - 2]), None));
        }
    }
}

/// Expanding globs only reads the repository.
pub proof fn lemma_glob_calls_read_only(t: Seq<GitCall>, repo: Seq<char>, globs: Seq<Seq<char>>)
    requires
        glob_calls(t, repo, globs),
    ensures
        reads_only(t),
{
    assert forall|k: int| 0 <= k < t.len() implies !(#[trigger] t[k]).through && is_read(t[k].args) by {
        assert(captured(t[k], repo, ref_list_args(seq![globs[k]]), None));
    }
}

/// The inventory of `repo`: statistics of every blob of its history ordered
/// by `sort`, with the trees of the kept refs recorded: one listing per
/// branch ref, then one per extra ref; all their blobs and paths are kept,
/// and each branch (by its display name) holds the paths of its own listing.
/// Without a branch ref git is not called.
pub fn build<G: Git>(g: &mut GitLog<G>, repo: &str, keep: &KeepRefs, sort: SortBy) -> (r: Result<Inventory, BuildError>)
    ensures
        (r matches Err(BuildError::NoBranches)) <==> keep.branch_refs@.len() == 0,
        keep.branch_refs@.len() == 0 ==> final(g).calls() == old(g).calls(),
        extends(old(g).calls(), final(g).calls()),
        keep.branch_refs@.len() > 0 ==> build_calls(added(old(g).calls(), final(g).calls()), repo@, *keep, r),
        r matches Ok(inv) ==> aggregated(inv.objects@, inv.stats@) && sorted_stats(inv.stats@, sort) && all_fit(inv.objects@)
            && tips_kept(inv),
        r matches Ok(inv) ==> exists|ls: Seq<Seq<(Oid, String)>>|
            {
                &&& #[trigger] listed_by(ls, added(old(g).calls(), final(g).calls()).skip(2))
                &&& inv.keep_blobs@ == kept_oids(ls)
                &&& inv.keep_paths@ == kept_paths(ls)
                &&& forall|q: Seq<char>| #[trigger] inv.tips.branches(q).to_set() == tip_labels(ls, branch_labels(*keep), q)
            },
{
    let ghost c0 = g.calls();
    if keep.branch_refs.len() == 0 {
        assert(g.calls().take(c0.len() as int) =~= c0);
        return Err(BuildError::NoBranches);
    }
    let ghost krefs = listing_refs(*keep);
    let res = history_objects(g, repo);
    let ghost hist = added(c0, g.calls());
    let ghost hres = res;
    let objects = match res {
        Ok(o) => o,
        Err(e) => {
            return Err(BuildError::Git(e));
        },
    };
    let ghost hout = hist[1].out->0;
    if !paths_fit(&objects) {
        assert(added(c0, g.calls()).skip(2) =~= Seq::<GitCall>::empty());
        assert(object_view(objects@) == batch_entries(split_seq(hout, 10u8)));
        return Err(BuildError::Oversized);
    }
    let ghost objs = objects@;
    let mut inv = Inventory::from_objects(objects, sort);
    let ghost labels = branch_labels(*keep);
    let ghost mut ls: Seq<Seq<(Oid, String)>> = Seq::empty();
    let ghost mut tcs: Seq<GitCall> = Seq::empty();
    proof {
        assert(inv.keep_blobs@ =~= kept_oids(ls));
        assert(inv.keep_paths@ =~= kept_paths(ls));
        assert(added(c0, g.calls()) =~= hist + tcs);
        assert forall|q: Seq<char>| #[trigger] inv.tips.branches(q).to_set() == tip_labels(ls, labels.take(0), q) by {
            assert(inv.tips.branches(q) == Seq::<Seq<char>>::empty());
            assert(tip_labels(ls, labels.take(0), q) =~= Set::<Seq<char>>::empty());
            assert(Seq::<Seq<char>>::empty().to_set() =~= Set::<Seq<char>>::empty());
        }
    }
    let mut i: usize = 0;
    while i < keep.branch_refs.len()
        invariant
            i <= keep.branch_refs.len(),
            keep.branch_refs@.len() > 0,
            c0 == old(g).calls(),
            krefs == listing_refs(*keep),
            history_calls(hist, repo@, hres),
            hres matches Ok(v) && v@ == objs,
            extends(c0, g.calls()),
            added(c0, g.calls()) == hist + tcs,
            tcs.len() == i,
            tree_list_calls(tcs, repo@, krefs),
            listed_by(ls, tcs),
            aggregated(inv.objects@, inv.stats@),
            sorted_stats(inv.stats@, sort),
            all_fit(inv.objects@),
            tips_kept(inv),
            inv.objects@ == objs,
            labels == branch_labels(*keep),
            inv.keep_blobs@ == kept_oids(ls),
            inv.keep_paths@ == kept_paths(ls),
            forall|q: Seq<char>| #[trigger] inv.tips.branches(q).to_set() == tip_labels(ls, labels.take(i as int), q),
        decreases keep.branch_refs.len() - i,
    {
        let r = &keep.branch_refs[i];
        let label = label_of(r.as_str(), keep.branch_prefix.as_str());
        let ghost before = g.calls();
        let listed = ls_tree_blobs(g, repo, r.as_str());
        let ghost tcs2 = tcs.push(g.calls().last());
        proof {
            assert(krefs[i as int] == keep.branch_refs@[i as int]@);
            lemma_one_listing(c0, before, g.calls(), hist, tcs, repo@, krefs);
        }
        let blobs = match listed {
            Ok(b) => b,
            Err(e) => {
                let out = Err(BuildError::Git(e));
                proof {
                    lemma_build_calls(hist, hres, tcs2, repo@, *keep, out);
                }
                return out;
            },
        };
        let ghost old_tips = inv.tips;
        record_tree(&mut inv, Some(label.as_str()), blobs.as_slice());
        proof {
            let next = ls.push(blobs@);
            assert(next.drop_last() =~= ls);
            assert(labels[i as int] == label@);
            assert forall|k: int| 0 <= k < tcs2.len() implies ((#[trigger] tcs2[k]).out matches Some(o) && oid_path_view(next[k])
                == ls_tree_entries(split_seq(o, 0u8))) by {
                if k < ls.len() {
                    assert(next[k] == ls[k] && tcs2[k] == tcs[k]);
                }
            }
            assert forall|q: Seq<char>| #[trigger] inv.tips.branches(q).to_set() == tip_labels(next, labels.take(i + 1), q) by {
                let before_t = tip_labels(ls, labels.take(i as int), q);
                let after = tip_labels(next, labels.take(i + 1), q);
                assert(old_tips.branches(q).to_set() == before_t);
                assert forall|b: Seq<char>| after.contains(b) <==> with_branch(before_t, q, listed_paths(blobs@), Some(label@)).contains(b) by {
                    if after.contains(b) {
                        let k = choose|k: int| 0 <= k < labels.take(i + 1).len() && k < next.len() && labels.take(i + 1)[k] == b
                            && #[trigger] listed_paths(next[k]).contains(q);
                        if k < i {
                            assert(labels.take(i as int)[k] == b && next[k] == ls[k]);
                            assert(listed_paths(ls[k]).contains(q));
                        }
                    }
                    if before_t.contains(b) {
                        let k = choose|k: int| 0 <= k < labels.take(i as int).len() && k < ls.len() && labels.take(i as int)[k] == b
                            && #[trigger] listed_paths(ls[k]).contains(q);
                        assert(labels.take(i + 1)[k] == b && next[k] == ls[k]);
                        assert(listed_paths(next[k]).contains(q));
                    }
                    if listed_paths(blobs@).contains(q) && b == label@ {
                        assert(labels.take(i + 1)[i as int] == b && next[i as int] == blobs@);
                        assert(listed_paths(next[i as int]).contains(q));
                    }
                }
                assert(after =~= with_branch(before_t, q, listed_paths(blobs@), Some(label@)));
            }
            ls = next;
            tcs = tcs2;
        }
        i = i + 1;
    }
    assert(labels.take(i as int) =~= labels);
    let mut j: usize = 0;
    while j < keep.extra_refs.len()
        invariant
            j <= keep.extra_refs.len(),
            keep.branch_refs@.len() > 0,
            c0 == old(g).calls(),
            krefs == listing_refs(*keep),
            history_calls(hist, repo@, hres),
            hres matches Ok(v) && v@ == objs,
            extends(c0, g.calls()),
            added(c0, g.calls()) == hist + tcs,
            tcs.len() == keep.branch_refs@.len() + j,
            tree_list_calls(tcs, repo@, krefs),
            listed_by(ls, tcs),
            aggregated(inv.objects@, inv.stats@),
            sorted_stats(inv.stats@, sort),
            all_fit(inv.objects@),
            tips_kept(inv),
            inv.objects@ == objs,
            labels == branch_labels(*keep),
            labels.len() == keep.branch_refs@.len(),
            inv.keep_blobs@ == kept_oids(ls),
            inv.keep_paths@ == kept_paths(ls),
            forall|q: Seq<char>| #[trigger] inv.tips.branches(q).to_set() == tip_labels(ls, labels, q),
        decreases keep.extra_refs.len() - j,
    {
        let ghost before = g.calls();
        let listed = ls_tree_blobs(g, repo, keep.extra_refs[j].as_str());
        let ghost tcs2 = tcs.push(g.calls().last());
        proof {
            assert(krefs[keep.branch_refs@.len() + j] == keep.extra_refs@[j as int]@);
            lemma_one_listing(c0, before, g.calls(), hist, tcs, repo@, krefs);
        }
        let blobs = match listed {
            Ok(b) => b,
            Err(e) => {
                let out = Err(BuildError::Git(e));
                proof {
                    lemma_build_calls(hist, hres, tcs2, repo@, *keep, out);
                }
                return out;
            },
        };
        record_tree(&mut inv, None, blobs.as_slice());
        proof {
            let next = ls.push(blobs@);
            assert(next.drop_last() =~= ls);
            assert forall|k: int| 0 <= k < tcs2.len() implies ((#[trigger] tcs2[k]).out matches Some(o) && oid_path_view(next[k])
                == ls_tree_entries(split_seq(o, 0u8))) by {
                if k < ls.len() {
                    assert(next[k] == ls[k] && tcs2[k] == tcs[k]);
                }
            }
            assert forall|q: Seq<char>| #[trigger] inv.tips.branches(q).to_set() == tip_labels(next, labels, q) by {
                assert(tip_labels(next, labels, q) =~= tip_labels(ls, labels, q)) by {
                    assert forall|b: Seq<char>| tip_labels(next, labels, q).contains(b) implies tip_labels(ls, labels, q).contains(b) by {
                        let k = choose|k: int| 0 <= k < labels.len() && k < next.len() && labels[k] == b
                            && #[trigger] listed_paths(next[k]).contains(q);
                        assert(next[k] == ls[k]);
                        assert(listed_paths(ls[k]).contains(q));
                    }
                    assert forall|b: Seq<char>| tip_labels(ls, labels, q).contains(b) implies tip_labels(next, labels, q).contains(b) by {
                        let k = choose|k: int| 0 <= k < labels.len() && k < ls.len() && labels[k] == b
                            && #[trigger] listed_paths(ls[k]).contains(q);
                        assert(next[k] == ls[k]);
                        assert(listed_paths(next[k]).contains(q));
                    }
                }
            }
            ls = next;
            tcs = tcs2;
        }
        j = j + 1;
    }
    let out = Ok(inv);
    proof {
        assert(added(c0, g.calls()).skip(2) =~= tcs);
        lemma_build_calls(hist, hres, tcs, repo@, *keep, out);
    }
    out
}

/// One more `ls-tree` call after `tcs`: the record grows by that call, and
/// the calls stay those of `refs` in order.
proof fn lemma_one_listing(
    c0: Seq<GitCall>,
    before: Seq<GitCall>,
    after: Seq<GitCall>,
    hist: Seq<GitCall>,
    tcs: Seq<GitCall>,
    repo: Seq<char>,
    refs: Seq<Seq<char>>,
)
    requires
        extends(c0, before),
        added(c0, before) == hist + tcs,
        one_more(before, after),
        tcs.len() < refs.len(),
        tree_list_calls(tcs, repo, refs),
        captured(after.last(), repo, tree_list_args(refs[tcs.len() as int]), None),
    ensures
        extends(c0, after),
        added(c0, after) == hist + tcs.push(after.last()),
        tree_list_calls(tcs.push(after.last()), repo, refs),
{
    assert(after.take(c0.len() as int) =~= before.take(c0.len() as int));
    assert(added(c0, after) =~= added(c0, before).push(after.last()));
    assert(hist + tcs.push(after.last()) =~= (hist + tcs).push(after.last()));
    let t2 = tcs.push(after.last());
    assert forall|k: int| 0 <= k < t2.len() implies captured(#[trigger] t2[k], repo, tree_list_args(refs[k]), None) by {
        if k < tcs.len() {
            assert(t2[k] == tcs[k]);
        }
    }
}

/// The calls of `build`: its history read `hist`, then the listings `tcs`.
proof fn lemma_build_calls(
    hist: Seq<GitCall>,
    hres: Result<Vec<ObjectRec>, ToolError>,
    tcs: Seq<GitCall>,
    repo: Seq<char>,
    keep: KeepRefs,
    r: Result<Inventory, BuildError>,
)
    requires
        history_calls(hist, repo, hres),
        hres is Ok,
        tcs.len() >= 1,
        tree_list_calls(tcs, repo, listing_refs(keep)),
        forall|k: int| 0 <= k < tcs.len() - 1 ==> (#[trigger] tcs[k]).out is Some,
        (r matches Err(BuildError::Git(_))) <==> tcs.last().out is None,
        !(r matches Err(BuildError::Oversized)),
        r matches Ok(inv) ==> (hres matches Ok(v) && inv.objects@ == v@) && tcs.len() == listing_refs(keep).len(),
    ensures
        build_calls(hist + tcs, repo, keep, r),
{
    let t = hist + tcs;
    assert(t.skip(2) =~= tcs);
    assert(t[0] == hist[0] && t[1] == hist[1]);
    assert forall|k: int| 0 <= k < t.len() - 1 implies (#[trigger] t[k]).out is Some by {
        if k >= 2 {
            assert(t[k] == tcs[k - 2]);
        }
    }
    assert(t.last() == tcs.last());
}

} // verus!
