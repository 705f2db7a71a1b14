//! Which blobs a clean deletes: every historical blob of the chosen paths
//! except those a kept tree still holds.
use vstd::prelude::*;
use crate::model::{Inventory, ObjectRec, OidSet, Removal};
use crate::strset::{views, StrSet};

verus! {

/// Blobs of the chosen paths that no kept tree holds.
pub open spec fn removed_set(objs: Seq<ObjectRec>, sel: Set<Seq<char>>, keep: Set<Seq<char>>) -> Set<Seq<char>>
    decreases objs.len(),
{
    if objs.len() == 0 {
        Set::empty()
    } else {
        let o = objs.last();
        let rest = removed_set(objs.drop_last(), sel, keep);
        if sel.contains(o.path@) && !keep.contains(o.oid@) {
            rest.insert(o.oid@)
        } else {
            rest
        }
    }
}

/// Blobs of the chosen paths that a kept tree holds.
pub open spec fn kept_set(objs: Seq<ObjectRec>, sel: Set<Seq<char>>, keep: Set<Seq<char>>) -> Set<Seq<char>>
    decreases objs.len(),
{
    if objs.len() == 0 {
        Set::empty()
    } else {
        let o = objs.last();
        let rest = kept_set(objs.drop_last(), sel, keep);
        if sel.contains(o.path@) && keep.contains(o.oid@) {
            rest.insert(o.oid@)
        } else {
            rest
        }
    }
}

/// Bytes freed: the size of each removed blob, counted once (at its first record).
pub open spec fn reclaim_of(objs: Seq<ObjectRec>, sel: Set<Seq<char>>, keep: Set<Seq<char>>) -> nat
    decreases objs.len(),
{
    if objs.len() == 0 {
        0
    } else {
        let o = objs.last();
        let rest = reclaim_of(objs.drop_last(), sel, keep);
        if sel.contains(o.path@) && !keep.contains(o.oid@) && !removed_set(objs.drop_last(), sel, keep).contains(
            o.oid@,
        ) {
            rest + o.size as nat
        } else {
            rest
        }
    }
}

pub proof fn lemma_sets_finite(objs: Seq<ObjectRec>, sel: Set<Seq<char>>, keep: Set<Seq<char>>)
    ensures
        removed_set(objs, sel, keep).finite(),
        kept_set(objs, sel, keep).finite(),
    decreases objs.len(),
{
    if objs.len() > 0 {
        lemma_sets_finite(objs.drop_last(), sel, keep);
    }
}

/// The removal of the chosen paths `selected` from `inv`.
pub fn plan_removal(inv: &Inventory, selected: &[String]) -> (r: Removal)
    requires
        reclaim_of(inv.objects@, views(selected@).to_set(), inv.keep_blobs@) <= u64::MAX,
    ensures
        r.remove@ == removed_set(inv.objects@, views(selected@).to_set(), inv.keep_blobs@),
        r.kept == kept_set(inv.objects@, views(selected@).to_set(), inv.keep_blobs@).len(),
        r.reclaim_bytes == reclaim_of(inv.objects@, views(selected@).to_set(), inv.keep_blobs@),
{
    let ghost sel_spec = views(selected@).to_set();
    let ghost keep = inv.keep_blobs@;
    let mut sel = StrSet::new();
    let mut j: usize = 0;
    while j < selected.len()
        invariant
            j <= selected.len(),
            sel@ == views(selected@).take(j as int).to_set(),
        decreases selected.len() - j,
    {
        let ghost before = sel@;
        sel.insert(selected[j].clone());
        assert(views(selected@).take(j + 1) =~= views(selected@).take(j as int).push(selected@[j as int]@));
        assert(sel@ =~= views(selected@).take(j + 1).to_set()) by {
            assert(views(selected@).take(j + 1).to_set() =~= views(selected@).take(j as int).to_set().insert(
                selected@[j as int]@,
            )) by {
                let a = views(selected@).take(j + 1);
                let b = views(selected@).take(j as int);
                assert forall|z: Seq<char>| a.contains(z) <==> b.contains(z) || z == selected@[j as int]@ by {
                    if a.contains(z) {
                        let k = choose|k: int| 0 <= k < a.len() && a[k] == z;
                        if k < j {
                            assert(b[k] == z);
                        }
                    }
                    if b.contains(z) {
                        let k = choose|k: int| 0 <= k < b.len() && b[k] == z;
                        assert(a[k] == z);
                    }
                    if z == selected@[j as int]@ {
                        assert(a[j as int] == z);
                    }
                }
            }
        }
        j = j + 1;
    }
    assert(views(selected@).take(j as int) =~= views(selected@));
    let objs = &inv.objects;
    let mut remove = OidSet::new();
    let mut kept = OidSet::new();
    let mut reclaim: u64 = 0;
    let mut i: usize = 0;
    while i < objs.len()
        invariant
            i <= objs.len(),
            sel@ == sel_spec,
            keep == inv.keep_blobs@,
            objs == &inv.objects,
            reclaim_of(objs@, sel_spec, keep) <= u64::MAX,
            remove@ == removed_set(objs@.take(i as int), sel_spec, keep),
            kept@ == kept_set(objs@.take(i as int), sel_spec, keep),
            reclaim == reclaim_of(objs@.take(i as int), sel_spec, keep),
        decreases objs.len() - i,
    {
        let o = &objs[i];
        proof {
            let post = objs@.take(i + 1);
            assert(post.drop_last() =~= objs@.take(i as int));
            assert(post.last() == *o);
            lemma_reclaim_prefix(objs@, i + 1, sel_spec, keep);
        }
        if sel.contains(o.path.as_str()) {
            if inv.keep_blobs.contains(&o.oid) {
                kept.insert(o.oid.clone());
            } else if remove.insert(o.oid.clone()) {
                reclaim = reclaim + o.size;
            }
        }
        i = i + 1;
    }
    assert(objs@.take(i as int) =~= objs@);
    Removal { remove, kept: kept.len(), reclaim_bytes: reclaim }
}

proof fn lemma_reclaim_prefix(objs: Seq<ObjectRec>, n: int, sel: Set<Seq<char>>, keep: Set<Seq<char>>)
    requires
        0 <= n <= objs.len(),
    ensures
        reclaim_of(objs.take(n), sel, keep) <= reclaim_of(objs, sel, keep),
    decreases objs.len(),
{
    if n < objs.len() {
        assert(objs.drop_last().take(n) =~= objs.take(n));
        lemma_reclaim_prefix(objs.drop_last(), n, sel, keep);
    } else {
        assert(objs.take(n) =~= objs);
    }
}

/// What a removal deletes, record by record: a blob is removed exactly when
/// some record of a chosen path names it and no kept tree holds it.
pub proof fn lemma_removed_members(objs: Seq<ObjectRec>, sel: Set<Seq<char>>, keep: Set<Seq<char>>, x: Seq<char>)
    ensures
        removed_set(objs, sel, keep).contains(x) <==> (!keep.contains(x) && exists|i: int|
            0 <= i < objs.len() && #[trigger] objs[i].oid@ == x && sel.contains(objs[i].path@)),
    decreases objs.len(),
{
    if objs.len() > 0 {
        lemma_removed_members(objs.drop_last(), sel, keep, x);
        let d = objs.drop_last();
        if exists|i: int| 0 <= i < objs.len() && #[trigger] objs[i].oid@ == x && sel.contains(objs[i].path@) {
            let i = choose|i: int| 0 <= i < objs.len() && #[trigger] objs[i].oid@ == x && sel.contains(objs[i].path@);
            if i < objs.len() - 1 {
                assert(d[i].oid@ == x);
            }
        }
        if exists|i: int| 0 <= i < d.len() && #[trigger] d[i].oid@ == x && sel.contains(d[i].path@) {
            let i = choose|i: int| 0 <= i < d.len() && #[trigger] d[i].oid@ == x && sel.contains(d[i].path@);
            assert(objs[i].oid@ == x);
        }
    }
}

/// No blob a kept tree holds is ever removed.
pub proof fn lemma_kept_blobs_survive(objs: Seq<ObjectRec>, sel: Set<Seq<char>>, keep: Set<Seq<char>>)
    ensures
        removed_set(objs, sel, keep).disjoint(keep),
{
    assert forall|x: Seq<char>| removed_set(objs, sel, keep).contains(x) implies !keep.contains(x) by {
        lemma_removed_members(objs, sel, keep, x);
    }
}

/// Paths that are not chosen lose nothing: every removed blob is recorded
/// under a chosen path.
pub proof fn lemma_only_chosen_paths(objs: Seq<ObjectRec>, sel: Set<Seq<char>>, keep: Set<Seq<char>>, x: Seq<char>)
    requires
        removed_set(objs, sel, keep).contains(x),
    ensures
        exists|i: int| 0 <= i < objs.len() && #[trigger] objs[i].oid@ == x && sel.contains(objs[i].path@),
{
    lemma_removed_members(objs, sel, keep, x);
}

} // verus!
