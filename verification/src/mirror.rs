//! The mirror clone that a cleaning rewrites: where it comes from and how it
//! is made.
use vstd::prelude::*;
use crate::error::ToolError;
use crate::git::{GitLog, 
    added, captured, ends_with_head, extends, for_each_ref, is_ref_line, lemma_added_concat, lemma_plan_step, lemma_prefix_grow,
    lemma_ran_concat, lemma_ran_failed, lemma_single, lines_of, ran_plan, ran_prefix, ref_lines, ref_list_args, str_views, text,
    text_lines, Git, GitCall,
};
use crate::size::{trim, trim_text};
use crate::strset::views;
use crate::text::{has_prefix, find_char, find_from, lemma_find_bounds, push_str, string_of, chars_of, trim_prefix_all, trim_prefix_text, utf8_lossy};

verus! {

/// Where the mirror comes from: online (reusing the local objects), a URL
/// alone, or offline from the local clone.
#[derive(Debug)]
pub enum Source {
    Online { url: String, local: String },
    UrlOnly { url: String },
    Offline { local: String },
}

/// Why no mirror could be made.
#[derive(Debug)]
pub enum MirrorError {
    /// Neither a URL nor a usable local directory.
    NoSource,
    /// The work directory is already there.
    WorkdirExists,
    /// The mirror holds no branch.
    NoBranches,
    /// A git call failed.
    Git(ToolError),
}

/// The URL given, trimmed, where anything is left of it.
pub open spec fn usable_url(url: Option<Seq<char>>) -> Option<Seq<char>> {
    match url {
        Some(u) => if trim(u).len() > 0 {
            Some(trim(u))
        } else {
            None
        },
        None => None,
    }
}

/// The source a URL and a local path give; `None` when there is neither.
pub open spec fn source_of(url: Option<Seq<char>>, local: Option<Seq<char>>, local_is_dir: bool) -> Option<(Option<Seq<char>>, Option<Seq<char>>)> {
    let u = usable_url(url);
    let l = if local_is_dir {
        local
    } else {
        None
    };
    if u is None && l is None {
        None
    } else {
        Some((u, l))
    }
}

pub open spec fn source_parts(s: Source) -> (Option<Seq<char>>, Option<Seq<char>>) {
    match s {
        Source::Online { url, local } => (Some(url@), Some(local@)),
        Source::UrlOnly { url } => (Some(url@), None),
        Source::Offline { local } => (None, Some(local@)),
    }
}

impl Source {
    /// The source for a plan's URL and local path; `local_is_dir` tells
    /// whether that path is an existing directory (a missing one is ignored).
    pub fn resolve(url: Option<&str>, local: Option<&str>, local_is_dir: bool) -> (r: Result<Source, MirrorError>)
        ensures
            match source_of(
                match url {
                    Some(u) => Some(u@),
                    None => None,
                },
                match local {
                    Some(l) => Some(l@),
                    None => None,
                },
                local_is_dir,
            ) {
                Some(parts) => r matches Ok(s) && source_parts(s) == parts,
                None => r matches Err(MirrorError::NoSource),
            },
    {
        let u: Option<String> = match url {
            Some(s) => {
                let t = trim_text(s);
                if !t.as_str().is_empty() {
                    Some(t)
                } else {
                    None
                }
            },
            None => None,
        };
        let l: Option<String> = match local {
            Some(p) => if local_is_dir {
                Some(p.to_owned())
            } else {
                None
            },
            None => None,
        };
        match (u, l) {
            (Some(url), Some(local)) => Ok(Source::Online { url, local }),
            (Some(url), None) => Ok(Source::UrlOnly { url }),
            (None, Some(local)) => Ok(Source::Offline { local }),
            (None, None) => Err(MirrorError::NoSource),
        }
    }

    /// The remote URL, for the online sources.
    pub fn url(&self) -> (r: Option<&str>)
        ensures
            match r {
                Some(u) => source_parts(*self).0 == Some(u@),
                None => source_parts(*self).0 is None,
            },
    {
        match self {
            Source::Online { url, .. } => Some(url.as_str()),
            Source::UrlOnly { url } => Some(url.as_str()),
            Source::Offline { .. } => None,
        }
    }

    /// One line telling how the mirror will be made.
    pub fn describe(&self) -> (r: String)
        ensures
            r@ == match *self {
                Source::Online { url, local } => "在线：从 "@ + url@ + " 取全部分支，复用本地对象 "@ + local@,
                Source::UrlOnly { url } => "在线：从 "@ + url@ + " 完整镜像克隆"@,
                Source::Offline { local } => "离线：镜像本地克隆 "@ + local@ + "，用 origin/* 重建分支"@,
            },
    {
        let mut r = String::new();
        match self {
            Source::Online { url, local } => {
                push_str(&mut r, "在线：从 ");
                push_str(&mut r, url.as_str());
                push_str(&mut r, " 取全部分支，复用本地对象 ");
                push_str(&mut r, local.as_str());
            },
            Source::UrlOnly { url } => {
                push_str(&mut r, "在线：从 ");
                push_str(&mut r, url.as_str());
                push_str(&mut r, " 完整镜像克隆");
            },
            Source::Offline { local } => {
                push_str(&mut r, "离线：镜像本地克隆 ");
                push_str(&mut r, local.as_str());
                push_str(&mut r, "，用 origin/* 重建分支");
            },
        }
        r
    }
}

/// The lines of `s` that end in "/HEAD" (symbolic refs such as
/// `refs/remotes/origin/HEAD`).
pub open spec fn head_lines(s: Seq<char>) -> Seq<Seq<char>> {
    text_lines(s).filter(|l: Seq<char>| ends_with_head(l))
}

/// The symbolic `*/HEAD` refs in the output of `for-each-ref --format=%(refname)`.
pub fn head_symrefs(out: Vec<u8>) -> (r: Vec<String>)
    ensures
        views(r@) == head_lines(utf8_lossy(out@)),
{
    let t = text(out);
    let ls = lines_of(t.as_str());
    let ghost lv = ls@.map_values(|v: Vec<char>| v@);
    let ghost keep = |l: Seq<char>| ends_with_head(l);
    let mut r: Vec<String> = Vec::new();
    let mut i: usize = 0;
    while i < ls.len()
        invariant
            i <= ls.len(),
            lv == ls@.map_values(|v: Vec<char>| v@),
            lv == text_lines(t@),
            keep == (|l: Seq<char>| ends_with_head(l)),
            views(r@) == lv.take(i as int).filter(keep),
        decreases ls.len() - i,
    {
        proof {
            assert(lv.take(i + 1).drop_last() =~= lv.take(i as int));
            assert(lv[i as int] == ls@[i as int]@);
            reveal_with_fuel(Seq::<_>::filter, 1);
        }
        let line = &ls[i];
        let is_head = line.len() > 0 && !is_ref_line(line);
        if is_head {
            let s = string_of(line.as_slice());
            let ghost before = r@;
            r.push(s);
            assert(views(r@) =~= views(before).push(s@));
        }
        i = i + 1;
    }
    assert(lv.take(i as int) =~= lv);
    r
}

/// The branch a remote-tracking ref stands for: what follows the remote's
/// name once every leading "refs/remotes/" is taken off; `None` without a '/'.
pub open spec fn remote_branch_of(r: Seq<char>) -> Option<Seq<char>> {
    let rest = trim_prefix_all(r, "refs/remotes/"@);
    let k = find_from(rest, '/', 0);
    if k == rest.len() {
        None
    } else {
        Some(rest.skip(k + 1))
    }
}

/// The branch of remote-tracking ref `r` (see `remote_branch_of`).
pub fn remote_branch(r: &str) -> (b: Option<String>)
    ensures
        match b {
            Some(s) => remote_branch_of(r@) == Some(s@),
            None => remote_branch_of(r@) is None,
        },
{
    let rest = trim_prefix_text(r, "refs/remotes/");
    let cs = chars_of(rest.as_str());
    proof {
        lemma_find_bounds(cs@, '/', 0);
    }
    let k = find_char(cs.as_slice(), '/', 0);
    if k == cs.len() {
        None
    } else {
        let tail = &cs.as_slice()[k + 1..cs.len()];
        assert(tail@ =~= cs@.skip(k + 1));
        Some(string_of(tail))
    }
}

/// Each ref without its leading "refs/heads/" (every repetition of it).
pub open spec fn branch_names_of(heads: Seq<Seq<char>>) -> Seq<Seq<char>> {
    heads.map_values(|h: Seq<char>| trim_prefix_all(h, "refs/heads/"@))
}

/// Once trimmed, a ref no longer begins with the prefix that was taken off.
pub proof fn lemma_trimmed_prefix_gone(h: Seq<char>, p: Seq<char>)
    requires
        p.len() > 0,
    ensures
        !has_prefix(trim_prefix_all(h, p), p),
    decreases h.len(),
{
    if has_prefix(h, p) {
        lemma_trimmed_prefix_gone(h.skip(p.len() as int), p);
    }
}

/// The branch names of the refs under `refs/heads/`.
pub fn branch_names(heads: &Vec<String>) -> (r: Vec<String>)
    ensures
        views(r@) == branch_names_of(views(heads@)),
{
    let ghost f = |h: Seq<char>| trim_prefix_all(h, "refs/heads/"@);
    let mut r: Vec<String> = Vec::new();
    let mut i: usize = 0;
    while i < heads.len()
        invariant
            i <= heads.len(),
            f == (|h: Seq<char>| trim_prefix_all(h, "refs/heads/"@)),
            views(r@) == views(heads@).take(i as int).map_values(f),
        decreases heads.len() - i,
    {
        let n = trim_prefix_text(heads[i].as_str(), "refs/heads/");
        let ghost before = r@;
        r.push(n);
        assert(views(r@) =~= views(heads@).take(i + 1).map_values(f)) by {
            assert(views(r@) =~= views(before).push(n@));
        }
        i = i + 1;
    }
    assert(views(heads@).take(i as int) =~= views(heads@));
    assert(views(r@) =~= branch_names_of(views(heads@)));
    r
}

/// The command deleting ref `r` (the symbolic ref itself with `no_deref`).
pub open spec fn delete_cmd(r: Seq<char>, no_deref: bool) -> Seq<Seq<char>> {
    if no_deref {
        seq!["update-ref"@, "--no-deref"@, "-d"@, r]
    } else {
        seq!["update-ref"@, "-d"@, r]
    }
}

/// One delete command per ref, in order.
pub open spec fn delete_cmds(refs: Seq<Seq<char>>, no_deref: bool) -> Seq<Seq<Seq<char>>> {
    refs.map_values(|r: Seq<char>| delete_cmd(r, no_deref))
}

/// Deletes `refs` in `w` one by one, stopping at the first failure.
fn delete_refs<G: Git>(g: &mut GitLog<G>, w: &str, refs: &Vec<String>, no_deref: bool) -> (r: Result<(), ToolError>)
    ensures
        extends(old(g).calls(), final(g).calls()),
        ran_plan(added(old(g).calls(), final(g).calls()), w@, delete_cmds(views(refs@), no_deref), r is Ok),
{
    let ghost c0 = g.calls();
    let ghost plan = delete_cmds(views(refs@), no_deref);
    proof {
        assert(added(c0, g.calls()) =~= Seq::<GitCall>::empty());
        assert(g.calls().take(c0.len() as int) =~= c0);
    }
    let mut i: usize = 0;
    while i < refs.len()
        invariant
            i <= refs.len(),
            c0 == old(g).calls(),
            plan == delete_cmds(views(refs@), no_deref),
            plan.len() == refs.len(),
            extends(c0, g.calls()),
            added(c0, g.calls()).len() == i,
            ran_prefix(added(c0, g.calls()), w@, plan),
            i > 0 ==> added(c0, g.calls()).last().out is Some,
        decreases refs.len() - i,
    {
        let ghost before = g.calls();
        proof {
            assert(plan[i as int] == delete_cmd(refs@[i as int]@, no_deref));
        }
        let res = if no_deref {
            let args = ["update-ref", "--no-deref", "-d", refs[i].as_str()];
            assert(str_views(args@) =~= delete_cmd(refs@[i as int]@, true));
            g.run(Some(w), args.as_slice(), None)
        } else {
            let args = ["update-ref", "-d", refs[i].as_str()];
            assert(str_views(args@) =~= delete_cmd(refs@[i as int]@, false));
            g.run(Some(w), args.as_slice(), None)
        };
        proof {
            lemma_plan_step(c0, before, g.calls(), w@, plan);
        }
        match res {
            Ok(_) => {},
            Err(e) => {
                return Err(e);
            },
        }
        i = i + 1;
    }
    Ok(())
}

/// The command pointing `refs/heads/<branch>` at remote-tracking ref `r`,
/// where `r` names a branch.
pub open spec fn head_update(r: Seq<char>) -> Seq<Seq<Seq<char>>> {
    match remote_branch_of(r) {
        Some(b) => seq![seq!["update-ref"@, "refs/heads/"@ + b, r]],
        None => Seq::empty(),
    }
}

/// The head updates for `remotes`, in order.
pub open spec fn head_updates(remotes: Seq<Seq<char>>) -> Seq<Seq<Seq<char>>>
    decreases remotes.len(),
{
    if remotes.len() == 0 {
        Seq::empty()
    } else {
        head_updates(remotes.drop_last()) + head_update(remotes.last())
    }
}

proof fn lemma_head_updates_concat(a: Seq<Seq<char>>, b: Seq<Seq<char>>)
    ensures
        head_updates(a + b) == head_updates(a) + head_updates(b),
    decreases b.len(),
{
    if b.len() == 0 {
        assert(a + b =~= a);
        assert(head_updates(a) + head_updates(b) =~= head_updates(a));
    } else {
        assert((a + b).drop_last() =~= a + b.drop_last());
        assert((a + b).last() == b.last());
        lemma_head_updates_concat(a, b.drop_last());
        assert(head_updates(a) + head_updates(b.drop_last()) + head_update(b.last()) =~= head_updates(a) + (head_updates(
            b.drop_last(),
        ) + head_update(b.last())));
    }
}

/// Points `refs/heads/<branch>` at each remote-tracking ref of `remotes`
/// that names a branch, in order, stopping at the first failure.
fn point_heads<G: Git>(g: &mut GitLog<G>, w: &str, remotes: &Vec<String>) -> (r: Result<(), ToolError>)
    ensures
        extends(old(g).calls(), final(g).calls()),
        ran_plan(added(old(g).calls(), final(g).calls()), w@, head_updates(views(remotes@)), r is Ok),
{
    let ghost c0 = g.calls();
    let ghost rv = views(remotes@);
    proof {
        assert(added(c0, g.calls()) =~= Seq::<GitCall>::empty());
        assert(g.calls().take(c0.len() as int) =~= c0);
        assert(rv.take(0) =~= Seq::<Seq<char>>::empty());
    }
    let mut k: usize = 0;
    while k < remotes.len()
        invariant
            k <= remotes.len(),
            c0 == old(g).calls(),
            rv == views(remotes@),
            extends(c0, g.calls()),
            added(c0, g.calls()).len() == head_updates(rv.take(k as int)).len(),
            ran_prefix(added(c0, g.calls()), w@, head_updates(rv.take(k as int))),
            added(c0, g.calls()).len() > 0 ==> added(c0, g.calls()).last().out is Some,
        decreases remotes.len() - k,
    {
        let ghost done = head_updates(rv.take(k as int));
        let ghost next = head_updates(rv.take(k + 1));
        proof {
            assert(rv.take(k + 1).drop_last() =~= rv.take(k as int));
            assert(rv.take(k + 1).last() == remotes@[k as int]@);
            assert(next == done + head_update(remotes@[k as int]@));
            lemma_prefix_grow(added(c0, g.calls()), w@, done, head_update(remotes@[k as int]@));
        }
        match remote_branch(remotes[k].as_str()) {
            Some(branch) => {
                let mut head = String::new();
                push_str(&mut head, "refs/heads/");
                push_str(&mut head, branch.as_str());
                let args = ["update-ref", head.as_str(), remotes[k].as_str()];
                proof {
                    assert(head@ =~= "refs/heads/"@ + branch@);
                    assert(str_views(args@) =~= seq!["update-ref"@, "refs/heads/"@ + branch@, remotes@[k as int]@]);
                    assert(next[done.len() as int] == str_views(args@));
                }
                let ghost before = g.calls();
                let res = g.run(Some(w), args.as_slice(), None);
                proof {
                    lemma_plan_step(c0, before, g.calls(), w@, next);
                }
                match res {
                    Ok(_) => {},
                    Err(e) => {
                        proof {
                            lemma_ran_failed(added(c0, g.calls()), w@, next, head_updates(rv.skip(k + 1)));
                            lemma_head_updates_concat(rv.take(k + 1), rv.skip(k + 1));
                            assert(rv.take(k + 1) + rv.skip(k + 1) =~= rv);
                        }
                        return Err(e);
                    },
                }
            },
            None => {
                assert(next =~= done);
            },
        }
        k = k + 1;
    }
    assert(rv.take(k as int) =~= rv);
    Ok(())
}

/// The arguments listing the refs under `prefix`.
pub open spec fn listing_args(prefix: Seq<char>) -> Seq<Seq<char>> {
    ref_list_args(seq![prefix])
}

/// What call `k` of `t` printed (empty where there is no such call or it failed).
pub open spec fn out_at(t: Seq<GitCall>, k: int) -> Seq<u8> {
    if 0 <= k < t.len() {
        match t[k].out {
            Some(o) => o,
            None => Seq::empty(),
        }
    } else {
        Seq::empty()
    }
}

/// Part `k` of the offline remapping once the listings printed `heads` (the
/// refs under `refs/heads/`), `raw` (everything under `refs/remotes/`) and
/// `remotes` (the same without the symbolic `*/HEAD`): list the heads (0) and
/// delete them (1); list the remote refs (2) and delete the symbolic ones
/// without following them (3); list the remote-tracking refs (4), point a head
/// at each that names a branch (5), and delete them (6).
pub open spec fn remap_part(heads: Seq<u8>, raw: Seq<u8>, remotes: Seq<u8>, k: int) -> Seq<Seq<Seq<char>>> {
    let rs = ref_lines(utf8_lossy(remotes));
    if k <= 0 {
        seq![listing_args("refs/heads/"@)]
    } else if k == 1 {
        delete_cmds(ref_lines(utf8_lossy(heads)), false)
    } else if k == 2 {
        seq![listing_args("refs/remotes/"@)]
    } else if k == 3 {
        delete_cmds(head_lines(utf8_lossy(raw)), true)
    } else if k == 4 {
        seq![listing_args("refs/remotes/"@)]
    } else if k == 5 {
        head_updates(rs)
    } else {
        delete_cmds(rs, false)
    }
}

/// Parts 0 to `k` of the remapping, in order.
pub open spec fn remap_stage(heads: Seq<u8>, raw: Seq<u8>, remotes: Seq<u8>, k: int) -> Seq<Seq<Seq<char>>> {
    let p0 = remap_part(heads, raw, remotes, 0);
    let p1 = remap_part(heads, raw, remotes, 1);
    let p2 = remap_part(heads, raw, remotes, 2);
    let p3 = remap_part(heads, raw, remotes, 3);
    let p4 = remap_part(heads, raw, remotes, 4);
    let p5 = remap_part(heads, raw, remotes, 5);
    let p6 = remap_part(heads, raw, remotes, 6);
    if k <= 0 {
        p0
    } else if k == 1 {
        p0 + p1
    } else if k == 2 {
        p0 + p1 + p2
    } else if k == 3 {
        p0 + p1 + p2 + p3
    } else if k == 4 {
        p0 + p1 + p2 + p3 + p4
    } else if k == 5 {
        p0 + p1 + p2 + p3 + p4 + p5
    } else {
        p0 + p1 + p2 + p3 + p4 + p5 + p6
    }
}

/// The commands of the offline remapping, all seven parts (see `remap_part`).
pub open spec fn remap_plan_of(heads: Seq<u8>, raw: Seq<u8>, remotes: Seq<u8>) -> Seq<Seq<Seq<char>>> {
    remap_stage(heads, raw, remotes, 6)
}

/// The commands of the offline remapping, as the listings among the calls
/// `t` fix them.
pub open spec fn remap_plan(t: Seq<GitCall>) -> Seq<Seq<Seq<char>>> {
    let o1 = out_at(t, 0);
    let p3: int = 1int + ref_lines(utf8_lossy(o1)).len();
    let o3 = out_at(t, p3);
    let p5: int = p3 + 1 + head_lines(utf8_lossy(o3)).len();
    remap_plan_of(o1, o3, out_at(t, p5))
}

/// A run of the remapping that failed in part `k` failed in the whole.
proof fn lemma_remap_failed(t: Seq<GitCall>, w: Seq<char>, h: Seq<u8>, raw: Seq<u8>, rem: Seq<u8>, k: int)
    requires
        0 <= k <= 6,
        ran_plan(t, w, remap_stage(h, raw, rem, k), false),
    ensures
        ran_plan(t, w, remap_plan_of(h, raw, rem), false),
    decreases 6 - k,
{
    if k < 6 {
        lemma_ran_failed(t, w, remap_stage(h, raw, rem, k), remap_part(h, raw, rem, k + 1));
        assert(remap_stage(h, raw, rem, k) + remap_part(h, raw, rem, k + 1) == remap_stage(h, raw, rem, k + 1));
        lemma_remap_failed(t, w, h, raw, rem, k + 1);
    }
}

/// Offline: each `refs/remotes/<remote>/<branch>` becomes `refs/heads/<branch>`;
/// the former heads and the remote-tracking refs go. The commands run in
/// the order of `remap_plan`, stopping at the first that fails.
fn remap_remotes_to_heads<G: Git>(g: &mut GitLog<G>, w: &str) -> (r: Result<(), ToolError>)
    ensures
        extends(old(g).calls(), final(g).calls()),
        ran_plan(added(old(g).calls(), final(g).calls()), w@, remap_plan(added(old(g).calls(), final(g).calls())), r is Ok),
{
    let ghost e = Seq::<u8>::empty();
    let ghost c0 = g.calls();
    let heads_pat = ["refs/heads/"];
    assert(str_views(heads_pat@) =~= seq!["refs/heads/"@]);
    let listed = for_each_ref(g, w, heads_pat.as_slice());
    let ghost c1 = g.calls();
    let ghost o1 = out_at(added(c0, c1), 0);
    proof {
        lemma_single(c0, c1, w@, listing_args("refs/heads/"@));
        assert(added(c0, c1)[0] == c1.last());
    }
    let old_heads = match listed {
        Ok(h) => h,
        Err(e1) => {
            proof {
                let t = added(c0, c1);
                lemma_remap_failed(t, w@, o1, e, e, 0);
                assert(remap_plan(t) == remap_plan_of(o1, e, e));
            }
            return Err(e1);
        },
    };
    proof {
        assert(views(old_heads@) == ref_lines(utf8_lossy(o1)));
    }
    let res = delete_refs(g, w, &old_heads, false);
    let ghost c2 = g.calls();
    proof {
        lemma_added_concat(c0, c1, c2);
        lemma_ran_concat(added(c0, c1), added(c1, c2), w@, remap_stage(o1, e, e, 0), remap_part(o1, e, e, 1), res is Ok);
        assert(added(c0, c2)[0] == added(c0, c1)[0]);
    }
    match res {
        Ok(_) => {},
        Err(e2) => {
            proof {
                let t = added(c0, c2);
                lemma_remap_failed(t, w@, o1, e, e, 1);
                assert(remap_plan(t) == remap_plan_of(o1, e, e));
            }
            return Err(e2);
        },
    }
    // Symbolic refs such as refs/remotes/*/HEAD go first, with --no-deref:
    // otherwise the branch they point to would be deleted.
    let list_args = ["for-each-ref", "--format=%(refname)", "refs/remotes/"];
    assert(str_views(list_args@) =~= listing_args("refs/remotes/"@));
    let raw_res = g.run(Some(w), list_args.as_slice(), None);
    let ghost c3 = g.calls();
    let ghost o3 = out_at(added(c2, c3), 0);
    proof {
        lemma_single(c2, c3, w@, listing_args("refs/remotes/"@));
        lemma_added_concat(c0, c2, c3);
        lemma_ran_concat(added(c0, c2), added(c2, c3), w@, remap_stage(o1, e, e, 1), remap_part(o1, e, e, 2), raw_res is Ok);
        let t = added(c0, c3);
        assert(t[0] == added(c0, c2)[0]);
        assert(t[added(c0, c2).len() as int] == added(c2, c3)[0]);
    }
    let raw = match raw_res {
        Ok(x) => x,
        Err(e3) => {
            proof {
                let t = added(c0, c3);
                lemma_remap_failed(t, w@, o1, o3, e, 2);
                assert(remap_plan(t) == remap_plan_of(o1, o3, e));
            }
            return Err(e3);
        },
    };
    let symrefs = head_symrefs(raw);
    proof {
        assert(views(symrefs@) == head_lines(utf8_lossy(o3)));
    }
    let res = delete_refs(g, w, &symrefs, true);
    let ghost c4 = g.calls();
    proof {
        lemma_added_concat(c0, c3, c4);
        lemma_ran_concat(added(c0, c3), added(c3, c4), w@, remap_stage(o1, o3, e, 2), remap_part(o1, o3, e, 3), res is Ok);
        let t = added(c0, c4);
        assert(t[0] == added(c0, c3)[0]);
        assert(t[added(c0, c2).len() as int] == added(c0, c3)[added(c0, c2).len() as int]);
    }
    match res {
        Ok(_) => {},
        Err(e4) => {
            proof {
                let t = added(c0, c4);
                lemma_remap_failed(t, w@, o1, o3, e, 3);
                assert(remap_plan(t) == remap_plan_of(o1, o3, e));
            }
            return Err(e4);
        },
    }
    let remotes_pat = ["refs/remotes/"];
    assert(str_views(remotes_pat@) =~= seq!["refs/remotes/"@]);
    let listed = for_each_ref(g, w, remotes_pat.as_slice());
    let ghost c5 = g.calls();
    let ghost o5 = out_at(added(c4, c5), 0);
    proof {
        lemma_single(c4, c5, w@, listing_args("refs/remotes/"@));
        lemma_added_concat(c0, c4, c5);
        lemma_ran_concat(added(c0, c4), added(c4, c5), w@, remap_stage(o1, o3, e, 3), remap_part(o1, o3, e, 4), listed is Ok);
        let t = added(c0, c5);
        assert(t[0] == added(c0, c4)[0]);
        assert(t[added(c0, c2).len() as int] == added(c0, c4)[added(c0, c2).len() as int]);
        assert(t[added(c0, c4).len() as int] == added(c4, c5)[0]);
    }
    let remotes = match listed {
        Ok(v) => v,
        Err(e5) => {
            proof {
                let t = added(c0, c5);
                lemma_remap_failed(t, w@, o1, o3, o5, 4);
                assert(remap_plan(t) == remap_plan_of(o1, o3, o5));
            }
            return Err(e5);
        },
    };
    proof {
        assert(views(remotes@) == ref_lines(utf8_lossy(o5)));
    }
    let res = point_heads(g, w, &remotes);
    let ghost c6 = g.calls();
    proof {
        lemma_added_concat(c0, c5, c6);
        lemma_ran_concat(added(c0, c5), added(c5, c6), w@, remap_stage(o1, o3, o5, 4), remap_part(o1, o3, o5, 5), res is Ok);
        let t = added(c0, c6);
        assert(t[0] == added(c0, c5)[0]);
        assert(t[added(c0, c2).len() as int] == added(c0, c5)[added(c0, c2).len() as int]);
        assert(t[added(c0, c4).len() as int] == added(c0, c5)[added(c0, c4).len() as int]);
    }
    match res {
        Ok(_) => {},
        Err(e6) => {
            proof {
                let t = added(c0, c6);
                lemma_remap_failed(t, w@, o1, o3, o5, 5);
                assert(remap_plan(t) == remap_plan_of(o1, o3, o5));
            }
            return Err(e6);
        },
    }
    let res = delete_refs(g, w, &remotes, false);
    let ghost c7 = g.calls();
    proof {
        lemma_added_concat(c0, c6, c7);
        lemma_ran_concat(added(c0, c6), added(c6, c7), w@, remap_stage(o1, o3, o5, 5), remap_part(o1, o3, o5, 6), res is Ok);
        let t = added(c0, c7);
        assert(t[0] == added(c0, c6)[0]);
        assert(t[added(c0, c2).len() as int] == added(c0, c6)[added(c0, c2).len() as int]);
        assert(t[added(c0, c4).len() as int] == added(c0, c6)[added(c0, c4).len() as int]);
        assert(remap_plan(t) == remap_plan_of(o1, o3, o5));
    }
    res
}

/// The arguments of the clone that makes the mirror of `src` at `workdir`.
pub open spec fn clone_args(src: Source, workdir: Seq<char>) -> Seq<Seq<char>> {
    match src {
        Source::Online { url, local } => seq!["clone"@, "--mirror"@, "--reference"@, local@, "--dissociate"@, url@, workdir],
        Source::UrlOnly { url } => seq!["clone"@, "--mirror"@, url@, workdir],
        Source::Offline { local } => seq!["clone"@, "--mirror"@, local@, workdir],
    }
}

/// `c` ran `git <args>` outside any repository, its output going to the terminal.
pub open spec fn passed_through(c: GitCall, args: Seq<Seq<char>>) -> bool {
    c.through && c.repo is None && c.args == args && c.stdin is None
}

/// How the closing listing `c` of `refs/heads/` in `workdir` decides `r`.
pub open spec fn heads_outcome(c: GitCall, workdir: Seq<char>, r: Result<Vec<String>, MirrorError>) -> bool {
    &&& captured(c, workdir, listing_args("refs/heads/"@), None)
    &&& match c.out {
        None => r matches Err(MirrorError::Git(_)),
        Some(o) => if ref_lines(utf8_lossy(o)).len() == 0 {
            r matches Err(MirrorError::NoBranches)
        } else {
            r matches Ok(v) && views(v@) == branch_names_of(ref_lines(utf8_lossy(o)))
        },
    }
}

/// The calls `t` that making the mirror of `src` at `workdir` takes, and how
/// they decide `r`: the clone; offline, the remapping (see `remap_plan`);
/// then the listing of the branches. A failure ends the calls with `Git`.
pub open spec fn mirror_calls(t: Seq<GitCall>, src: Source, workdir: Seq<char>, r: Result<Vec<String>, MirrorError>) -> bool {
    &&& t.len() >= 1
    &&& passed_through(t[0], clone_args(src, workdir))
    &&& match t[0].out {
        None => t.len() == 1 && r matches Err(MirrorError::Git(_)),
        Some(_) => match src {
            Source::Offline { .. } => {
                ||| t.len() >= 2 && ran_plan(t.subrange(1, t.len() - 1), workdir, remap_plan(t.subrange(1, t.len() - 1)), true)
                    && heads_outcome(t.last(), workdir, r)
                ||| ran_plan(t.skip(1), workdir, remap_plan(t.skip(1)), false) && r matches Err(MirrorError::Git(_))
            },
            _ => t.len() == 2 && heads_outcome(t[1], workdir, r),
        },
    }
}

/// Makes the mirror at `workdir` and returns its branch names (the refs
/// under `refs/heads/`); fails, without calling git, when `workdir_exists`.
pub fn build<G: Git>(g: &mut GitLog<G>, src: &Source, workdir: &str, workdir_exists: bool) -> (r: Result<Vec<String>, MirrorError>)
    ensures
        (r matches Err(MirrorError::WorkdirExists)) <==> workdir_exists,
        workdir_exists ==> final(g).calls() == old(g).calls(),
        extends(old(g).calls(), final(g).calls()),
        !workdir_exists ==> mirror_calls(added(old(g).calls(), final(g).calls()), *src, workdir@, r),
        r matches Ok(v) ==> v@.len() > 0,
{
    let ghost c0 = g.calls();
    if workdir_exists {
        assert(g.calls().take(c0.len() as int) =~= c0);
        return Err(MirrorError::WorkdirExists);
    }
    let cloned = match src {
        Source::Online { url, local } => {
            let args = ["clone", "--mirror", "--reference", local.as_str(), "--dissociate", url.as_str(), workdir];
            assert(str_views(args@) =~= clone_args(*src, workdir@));
            g.run_inherit(None, args.as_slice())
        },
        Source::UrlOnly { url } => {
            let args = ["clone", "--mirror", url.as_str(), workdir];
            assert(str_views(args@) =~= clone_args(*src, workdir@));
            g.run_inherit(None, args.as_slice())
        },
        Source::Offline { local } => {
            let args = ["clone", "--mirror", local.as_str(), workdir];
            assert(str_views(args@) =~= clone_args(*src, workdir@));
            g.run_inherit(None, args.as_slice())
        },
    };
    let ghost c1 = g.calls();
    proof {
        assert(c1.take(c0.len() as int) =~= c0);
        assert(added(c0, c1) =~= seq![c1.last()]);
    }
    match cloned {
        Ok(()) => {},
        Err(e) => {
            return Err(MirrorError::Git(e));
        },
    }
    let remapped = match src {
        Source::Offline { .. } => remap_remotes_to_heads(g, workdir),
        _ => Ok(()),
    };
    let ghost c2 = g.calls();
    proof {
        if !(src is Offline) {
            assert(c2 == c1);
            assert(c2.take(c1.len() as int) =~= c1);
        }
        lemma_added_concat(c0, c1, c2);
        assert(added(c0, c2)[0] == c1.last());
        assert(added(c0, c2).skip(1) =~= added(c1, c2));
    }
    match remapped {
        Ok(()) => {},
        Err(e) => {
            return Err(MirrorError::Git(e));
        },
    }
    let heads_pat = ["refs/heads/"];
    assert(str_views(heads_pat@) =~= seq!["refs/heads/"@]);
    let listed = for_each_ref(g, workdir, heads_pat.as_slice());
    let ghost c3 = g.calls();
    proof {
        lemma_single(c2, c3, workdir@, listing_args("refs/heads/"@));
        lemma_added_concat(c0, c2, c3);
        let t = added(c0, c3);
        assert(t[0] == c1.last());
        assert(t.last() == c3.last());
        assert(t.subrange(1, t.len() - 1) =~= added(c1, c2));
        if !(src is Offline) {
            assert(t[1] == c3.last());
        }
    }
    let heads = match listed {
        Ok(h) => h,
        Err(e) => {
            return Err(MirrorError::Git(e));
        },
    };
    if heads.len() == 0 {
        return Err(MirrorError::NoBranches);
    }
    let names = branch_names(&heads);
    assert(views(names@).len() == branch_names_of(views(heads@)).len());
    Ok(names)
}

} // verus!
