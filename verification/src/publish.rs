//! What a cleaning hands to the push, the checks made before pushing, and
//! how the push is invoked.
use vstd::prelude::*;
use vstd::seq_lib::group_to_multiset_ensures;
use crate::error::ToolError;
use crate::git::{GitLog, 
    added, blob_word, captured, one_more, str_views, exists_args, extends, object_exists, parse_u64, rev_parse_args, tree_of, u64_text, Git, GitCall,
};
use crate::order::{compare_str, lemma_str_lt_order, str_lt, Rank};
use crate::size::{is_space, is_space_exec, skip_space, trim};
use crate::text::{chars_eq, chars_of, find_byte, find_from, lemma_find_bounds, lossy, split_bytes, split_seq, utf8_lossy};
use crate::inventory::sorted_unique;
use crate::select::dir_part;
use crate::model::Oid;
use crate::strset::{ascending, lemma_sorted_members, sorted_members, views};
use crate::text::{decimal, join_text, joined, push_decimal, push_str};

verus! {

broadcast use group_to_multiset_ensures;

pub const PUSH_INFO_VERSION: u32 = 1;

/// What `clean` hands to `push`: the remote URL, the tree of each kept ref
/// before the rewrite, and the blobs that were to go.
#[derive(Clone, Debug, PartialEq, Eq)]
pub struct PushInfo {
    pub version: u32,
    pub url: Option<String>,
    pub branches: Vec<String>,
    /// (ref, tree) ordered by ref, each ref once.
    pub tips: Vec<(String, String)>,
    pub removed: Vec<String>,
    pub reclaim_bytes: u64,
}

/// Why push information was refused.
#[derive(Clone, Copy, Debug, PartialEq, Eq)]
pub enum InfoError {
    UnsupportedVersion(u32),
}

/// The last component of a path (`Path::file_name`).
pub uninterp spec fn file_name_of(p: Seq<char>) -> Option<Seq<char>>;

/// `p` with its last component replaced by `name` (`Path::with_file_name`).
pub uninterp spec fn with_file_name_of(p: Seq<char>, name: Seq<char>) -> Seq<char>;

/// What follows the last '/' of `s` (all of `s` when it has none).
pub open spec fn last_segment(s: Seq<char>) -> Seq<char>
    decreases s.len(),
{
    if s.len() == 0 {
        s
    } else if s.last() == '/' {
        Seq::empty()
    } else {
        last_segment(s.drop_last()).push(s.last())
    }
}

/// `n` is a plain path component: not empty, without '/', neither "." nor "..".
pub open spec fn plain_component(n: Seq<char>) -> bool {
    n.len() > 0 && !n.contains('/') && n != seq!['.'] && n != seq!['.', '.']
}

/// What precedes the last '/' of `p` is a plain parent: not empty, and
/// ending neither in '/' nor in '.'.
pub open spec fn plain_parent(p: Seq<char>) -> bool {
    dir_part(p) matches Some(d) && d.len() > 0 && d.last() != '/' && d.last() != '.'
}

/// `Path::file_name` on a UTF-8 path (Unix). Stated: the result is the
/// named function of the path; and, as std documents it (the final
/// component, repeated separators and "." being normalized away), when the
/// path ends in a plain component that component is its file name. What it
/// gives on other paths (a trailing "/", "." or "..") is left to std.
#[verifier::external_body]
fn file_name(p: &str) -> (r: Option<String>)
    ensures
        match r {
            Some(n) => file_name_of(p@) == Some(n@),
            None => file_name_of(p@) is None,
        },
        plain_component(last_segment(p@)) ==> (r is Some && r->0@ == last_segment(p@)),
{
    std::path::Path::new(p).file_name().map(|n| n.to_string_lossy().into_owned())
}

/// `Path::with_file_name` on UTF-8 paths (Unix). Stated: the result is the
/// named function of the two arguments; and, as std documents it (the
/// parent, then the new name pushed with a separator), when `p` ends in a
/// plain component after a plain parent `d` the result is `d/name`, and
/// when `p` is a plain component alone it is `name`, for a plain `name`.
/// Other paths are left to std.
#[verifier::external_body]
fn with_file_name(p: &str, name: &str) -> (r: String)
    ensures
        r@ == with_file_name_of(p@, name@),
        plain_component(name@) && plain_component(last_segment(p@)) && plain_parent(p@) ==> r@ == dir_part(p@)->0 + "/"@
            + name@,
        plain_component(name@) && plain_component(p@) ==> r@ == name@,
{
    std::path::Path::new(p).with_file_name(name).to_string_lossy().into_owned()
}

/// Where the push command stands once the mirror was checked: just checked,
/// or after the pre-push hook (whether it succeeded).
#[derive(Clone, Copy, Debug, PartialEq, Eq)]
pub enum PushStage {
    Checked,
    PrePush(bool),
}

/// What the push command does next.
#[derive(Clone, Copy, Debug, PartialEq, Eq)]
pub enum PushNext {
    /// Only show the command (no `--yes`).
    DryRun,
    /// Run the pre-push hook.
    RunPrePush,
    /// Push the mirror.
    Push,
    /// Stop without pushing (the pre-push hook failed).
    Stop,
}

/// The push command's decision: without `yes` a dry run; with it the
/// pre-push hook first, and the push only once the hook did not fail.
pub open spec fn push_next_spec(yes: bool, stage: PushStage) -> PushNext {
    match stage {
        PushStage::Checked => if yes {
            PushNext::RunPrePush
        } else {
            PushNext::DryRun
        },
        PushStage::PrePush(ok) => if yes && ok {
            PushNext::Push
        } else {
            PushNext::Stop
        },
    }
}

/// What the push command does next (see `push_next_spec`).
pub fn push_next(yes: bool, stage: PushStage) -> (n: PushNext)
    ensures
        n == push_next_spec(yes, stage),
{
    match stage {
        PushStage::Checked => if yes {
            PushNext::RunPrePush
        } else {
            PushNext::DryRun
        },
        PushStage::PrePush(ok) => if yes && ok {
            PushNext::Push
        } else {
            PushNext::Stop
        },
    }
}

/// The mirror is pushed only with `yes` and after the pre-push hook did
/// not fail; without `yes` nothing but the dry run follows the check.
pub proof fn lemma_push_needs_yes(yes: bool, stage: PushStage)
    ensures
        push_next_spec(yes, stage) == PushNext::Push ==> yes && stage == PushStage::PrePush(true),
        !yes ==> push_next_spec(yes, PushStage::Checked) == PushNext::DryRun,
{
}

/// Pushes the mirror at `mirror` back to `url` (see `push_argv`): one call
/// of git in the mirror, its output going to the terminal.
pub fn force_push<G: Git>(g: &mut GitLog<G>, mirror: &str, url: &str, mirror_mode: bool) -> (r: Result<(), ToolError>)
    ensures
        one_more(old(g).calls(), final(g).calls()),
        final(g).calls().last().through,
        final(g).calls().last().repo == Some(mirror@),
        final(g).calls().last().args == push_argv(url@, mirror_mode),
        r is Ok <==> final(g).calls().last().out is Some,
{
    let args = push_args(url, mirror_mode);
    let mut argv: Vec<&str> = Vec::new();
    let mut i: usize = 0;
    while i < args.len()
        invariant
            i <= args.len(),
            str_views(argv@) == views(args@).take(i as int),
        decreases args.len() - i,
    {
        let ghost before = argv@;
        argv.push(args[i].as_str());
        assert(str_views(argv@) =~= str_views(before).push(args@[i as int]@));
        assert(views(args@).take(i + 1) =~= views(args@).take(i as int).push(args@[i as int]@));
        i = i + 1;
    }
    assert(views(args@).take(i as int) =~= views(args@));
    g.run_inherit(Some(mirror), argv.as_slice())
}

/// The file name of the push information beside a mirror whose own file
/// name is `mirror_name`.
pub open spec fn info_name(mirror_name: Option<Seq<char>>) -> Seq<char> {
    let base = match mirror_name {
        Some(n) => n,
        None => Seq::empty(),
    };
    base + ".pomona-push.toml"@
}

/// The push information's file name for a mirror named `mirror_name`.
pub fn info_file_name(mirror_name: Option<&str>) -> (r: String)
    ensures
        r@ == info_name(
            match mirror_name {
                Some(n) => Some(n@),
                None => None,
            },
        ),
{
    let mut r = String::new();
    match mirror_name {
        Some(n) => push_str(&mut r, n),
        None => {},
    }
    push_str(&mut r, ".pomona-push.toml");
    r
}

/// A plain component with the suffix of the push information is still one.
proof fn lemma_plain_info_name(n: Seq<char>)
    requires
        plain_component(n),
    ensures
        plain_component(n + ".pomona-push.toml"@),
{
    reveal_strlit(".pomona-push.toml");
    let m = n + ".pomona-push.toml"@;
    assert(!m.contains('/')) by {
        if m.contains('/') {
            let k = choose|k: int| 0 <= k < m.len() && m[k] == '/';
            if k < n.len() {
                assert(n[k] == '/');
            }
        }
    }
}

/// A path without '/' is its own last segment.
proof fn lemma_last_segment_plain(p: Seq<char>)
    ensures
        !p.contains('/') ==> last_segment(p) == p,
    decreases p.len(),
{
    if p.len() > 0 && !p.contains('/') {
        assert(!p.drop_last().contains('/')) by {
            if p.drop_last().contains('/') {
                let k = choose|k: int| 0 <= k < p.drop_last().len() && p.drop_last()[k] == '/';
                assert(p[k] == '/');
            }
        }
        assert(p.last() != '/') by {
            assert(p[p.len() - 1] == p.last());
        }
        lemma_last_segment_plain(p.drop_last());
        assert(p.drop_last().push(p.last()) =~= p);
    }
}

impl PushInfo {
    /// `<mirror>.pomona-push.toml`, beside the mirror directory.
    pub fn path_for(mirror: &str) -> (r: String)
        ensures
            r@ == with_file_name_of(mirror@, info_name(file_name_of(mirror@))),
            plain_component(last_segment(mirror@)) && plain_parent(mirror@) ==> r@ == dir_part(mirror@)->0 + "/"@
                + last_segment(mirror@) + ".pomona-push.toml"@,
            plain_component(mirror@) ==> r@ == mirror@ + ".pomona-push.toml"@,
    {
        proof {
            reveal_strlit(".pomona-push.toml");
            if plain_component(last_segment(mirror@)) {
                lemma_plain_info_name(last_segment(mirror@));
            }
            lemma_last_segment_plain(mirror@);
        }
        let name = file_name(mirror);
        let file = match &name {
            Some(n) => info_file_name(Some(n.as_str())),
            None => info_file_name(None),
        };
        with_file_name(mirror, file.as_str())
    }

    /// Accepts push information of the supported version only.
    pub fn validate(self) -> (r: Result<PushInfo, InfoError>)
        ensures
            self.version == PUSH_INFO_VERSION ==> r == Ok::<PushInfo, InfoError>(self),
            self.version != PUSH_INFO_VERSION ==> r == Err::<PushInfo, InfoError>(InfoError::UnsupportedVersion(self.version)),
    {
        if self.version != PUSH_INFO_VERSION {
            let v = self.version;
            return Err(InfoError::UnsupportedVersion(v));
        }
        Ok(self)
    }
}

/// The refs of a (ref, tree) list.
pub open spec fn tip_refs(t: Seq<(String, String)>) -> Seq<Seq<char>> {
    t.map_values(|e: (String, String)| e.0@)
}

/// `t` are the `tree_of` calls for the refs `keys` in order on `repo`, made
/// until one failed.
pub open spec fn tree_calls(t: Seq<GitCall>, repo: Seq<char>, keys: Seq<Seq<char>>) -> bool {
    &&& t.len() <= keys.len()
    &&& forall|k: int| 0 <= k < t.len() ==> captured(#[trigger] t[k], repo, rev_parse_args(keys[k] + "^{tree}"@), None)
    &&& forall|k: int| 0 <= k < t.len() - 1 ==> (#[trigger] t[k]).out is Some
}

/// The tree of each of `refs` (ordered by ref, each ref once): one
/// `rev-parse <ref>^{tree}` per distinct ref, in ascending order, stopping at
/// the first that fails.
pub fn snapshot_tips<G: Git>(g: &mut GitLog<G>, repo: &str, refs: &[String]) -> (r: Result<Vec<(String, String)>, ToolError>)
    ensures
        r matches Ok(t) ==> ascending(tip_refs(t@)) && tip_refs(t@).to_set() == views(refs@).to_set(),
        refs@.len() == 0 ==> (r matches Ok(t) && t@.len() == 0),
        extends(old(g).calls(), final(g).calls()),
        tree_calls(added(old(g).calls(), final(g).calls()), repo@, sorted_members(views(refs@))),
        r matches Ok(t) ==> added(old(g).calls(), final(g).calls()).len() == t@.len() && tip_refs(t@) == sorted_members(
            views(refs@),
        ) && forall|k: int|
            0 <= k < t@.len() ==> ((#[trigger] added(old(g).calls(), final(g).calls())[k]).out matches Some(o)
                && t@[k].1@ == trim(utf8_lossy(o))),
        r is Err ==> added(old(g).calls(), final(g).calls()).len() > 0 && added(old(g).calls(), final(g).calls()).last().out is None,
{
    let ghost c0 = g.calls();
    let keys = sorted_unique(refs);
    proof {
        lemma_sorted_members(views(refs@), views(keys@));
        assert(added(c0, g.calls()) =~= Seq::<GitCall>::empty());
        assert(g.calls().take(c0.len() as int) =~= c0);
        if refs@.len() == 0 {
            assert(views(refs@).to_set() =~= Set::<Seq<char>>::empty());
            if keys@.len() > 0 {
                assert(views(keys@)[0] == keys@[0]@);
                assert(views(keys@).contains(keys@[0]@));
                assert(views(keys@).to_set().contains(keys@[0]@));
            }
        }
    }
    let mut t: Vec<(String, String)> = Vec::new();
    let mut i: usize = 0;
    while i < keys.len()
        invariant
            i <= keys.len(),
            c0 == old(g).calls(),
            views(keys@) == sorted_members(views(refs@)),
            tip_refs(t@) == views(keys@).take(i as int),
            refs@.len() == 0 ==> keys@.len() == 0,
            extends(c0, g.calls()),
            added(c0, g.calls()).len() == i,
            tree_calls(added(c0, g.calls()), repo@, views(keys@)),
            forall|k: int| 0 <= k < i ==> ((#[trigger] added(c0, g.calls())[k]).out matches Some(o) && t@[k].1@
                == trim(utf8_lossy(o))),
        decreases keys.len() - i,
    {
        let ghost before = g.calls();
        let res = tree_of(g, repo, keys[i].as_str());
        proof {
            assert(added(c0, g.calls()) =~= added(c0, before).push(g.calls().last()));
            assert(g.calls().take(c0.len() as int) =~= c0);
            assert(added(c0, g.calls())[i as int] == g.calls().last());
            assert(views(keys@)[i as int] == keys@[i as int]@);
        }
        let tree = match res {
            Ok(x) => x,
            Err(e) => {
                return Err(e);
            },
        };
        let ghost tb = t@;
        t.push((keys[i].clone(), tree));
        proof {
            assert(tip_refs(t@) =~= tip_refs(tb).push(keys@[i as int]@));
            assert(views(keys@).take(i + 1) =~= views(keys@).take(i as int).push(keys@[i as int]@));
        }
        i = i + 1;
    }
    assert(views(keys@).take(i as int) =~= views(keys@));
    assert(t@.len() == tip_refs(t@).len());
    Ok(t)
}

/// Why the mirror failed its check.
#[derive(Debug)]
pub enum VerifyError {
    /// The tree of `reference` is no longer the one recorded.
    TreeChanged { reference: String, expected: String, now: String },
    /// A blob that was to go is still there.
    StillPresent(String),
    /// Reading the tree of `reference` failed.
    Git { reference: String, error: ToolError },
}

/// The arguments of the `k`-th check: the tree of each kept ref in turn,
/// then the presence of each removed blob.
pub open spec fn check_args(info: PushInfo, k: int) -> Seq<Seq<char>> {
    if k < info.tips@.len() {
        rev_parse_args(info.tips@[k].0@ + "^{tree}"@)
    } else {
        exists_args(info.removed@[k - info.tips@.len()]@)
    }
}

/// The `k`-th check passed on what git answered: the ref's tree is the
/// recorded one, or the blob is absent.
pub open spec fn check_passed(info: PushInfo, k: int, c: GitCall) -> bool {
    if k < info.tips@.len() {
        c.out matches Some(o) && trim(utf8_lossy(o)) == info.tips@[k].1@
    } else {
        c.out is None
    }
}

/// The number of checks.
pub open spec fn check_count(info: PushInfo) -> int {
    (info.tips@.len() + info.removed@.len()) as int
}

/// `t` are the checks made in order on `mirror`, each before the last one
/// having passed.
pub open spec fn checks_made(info: PushInfo, mirror: Seq<char>, t: Seq<GitCall>) -> bool {
    &&& t.len() <= check_count(info)
    &&& forall|k: int| 0 <= k < t.len() ==> captured(#[trigger] t[k], mirror, check_args(info, k), None)
    &&& forall|k: int| 0 <= k < t.len() - 1 ==> check_passed(info, k, #[trigger] t[k])
}

/// Every check was made and passed: each kept tip's tree is unchanged and
/// each removed blob is gone.
pub open spec fn all_checks_pass(info: PushInfo, t: Seq<GitCall>) -> bool {
    t.len() == check_count(info) && forall|k: int| 0 <= k < t.len() ==> check_passed(info, k, #[trigger] t[k])
}

/// What failed, for the last check made.
pub open spec fn failure_matches(info: PushInfo, t: Seq<GitCall>, e: VerifyError) -> bool {
    let k = t.len() - 1;
    &&& t.len() > 0
    &&& !check_passed(info, k, t[k])
    &&& match e {
        VerifyError::TreeChanged { reference, expected, now } => k < info.tips@.len() && reference@ == info.tips@[k].0@
            && expected@ == info.tips@[k].1@ && (t[k].out matches Some(o) && now@ == trim(utf8_lossy(o))),
        VerifyError::Git { reference, .. } => k < info.tips@.len() && reference@ == info.tips@[k].0@ && t[k].out is None,
        VerifyError::StillPresent(o) => k >= info.tips@.len() && o@ == info.removed@[k - info.tips@.len()]@,
    }
}

/// The safety checks: the tree of every kept ref is unchanged, and every blob
/// that was to go is gone. They run in order and stop at the first that
/// fails; the mirror passes exactly when every check passes.
pub fn verify<G: Git>(g: &mut GitLog<G>, mirror: &str, info: &PushInfo) -> (r: Result<(), VerifyError>)
    ensures
        extends(old(g).calls(), final(g).calls()),
        checks_made(*info, mirror@, added(old(g).calls(), final(g).calls())),
        r is Ok <==> all_checks_pass(*info, added(old(g).calls(), final(g).calls())),
        r matches Err(e) ==> failure_matches(*info, added(old(g).calls(), final(g).calls()), e),
{
    let ghost c0 = g.calls();
    assert(added(c0, g.calls()) =~= Seq::<GitCall>::empty());
    assert(g.calls().take(c0.len() as int) =~= c0);
    let mut i: usize = 0;
    while i < info.tips.len()
        invariant
            i <= info.tips.len(),
            c0 == old(g).calls(),
            extends(c0, g.calls()),
            added(c0, g.calls()).len() == i,
            forall|k: int| 0 <= k < i ==> captured(#[trigger] added(c0, g.calls())[k], mirror@, check_args(*info, k), None),
            forall|k: int| 0 <= k < i ==> check_passed(*info, k, #[trigger] added(c0, g.calls())[k]),
        decreases info.tips.len() - i,
    {
        let ghost before = g.calls();
        let (reference, expected) = (&info.tips[i].0, &info.tips[i].1);
        let res = tree_of(g, mirror, reference.as_str());
        proof {
            assert(added(c0, g.calls()) =~= added(c0, before).push(g.calls().last()));
            assert(g.calls().take(c0.len() as int) =~= c0);
            assert(added(c0, g.calls())[i as int] == g.calls().last());
        }
        let now = match res {
            Ok(t) => t,
            Err(e) => {
                return Err(VerifyError::Git { reference: reference.clone(), error: e });
            },
        };
        if !crate::order::str_eq(now.as_str(), expected.as_str()) {
            return Err(VerifyError::TreeChanged { reference: reference.clone(), expected: expected.clone(), now });
        }
        i = i + 1;
    }
    let mut k: usize = 0;
    while k < info.removed.len()
        invariant
            k <= info.removed.len(),
            c0 == old(g).calls(),
            extends(c0, g.calls()),
            added(c0, g.calls()).len() == info.tips@.len() + k,
            forall|j: int|
                0 <= j < info.tips@.len() + k ==> captured(#[trigger] added(c0, g.calls())[j], mirror@, check_args(*info, j), None),
            forall|j: int| 0 <= j < info.tips@.len() + k ==> check_passed(*info, j, #[trigger] added(c0, g.calls())[j]),
        decreases info.removed.len() - k,
    {
        let ghost before = g.calls();
        let present = object_exists(g, mirror, &Oid::new(info.removed[k].as_str()));
        proof {
            assert(added(c0, g.calls()) =~= added(c0, before).push(g.calls().last()));
            assert(g.calls().take(c0.len() as int) =~= c0);
            assert(added(c0, g.calls())[info.tips@.len() + k] == g.calls().last());
        }
        if present {
            return Err(VerifyError::StillPresent(info.removed[k].clone()));
        }
        k = k + 1;
    }
    Ok(())
}

/// The arguments of the forced push: `--mirror` mirrors every ref; otherwise
/// only heads and tags are pushed.
pub open spec fn push_argv(url: Seq<char>, mirror_mode: bool) -> Seq<Seq<char>> {
    if mirror_mode {
        seq!["push"@, "--mirror"@, "--force"@, url]
    } else {
        seq!["push"@, "--force"@, url, "refs/heads/*:refs/heads/*"@, "refs/tags/*:refs/tags/*"@]
    }
}

pub fn push_args(url: &str, mirror_mode: bool) -> (r: Vec<String>)
    ensures
        views(r@) == push_argv(url@, mirror_mode),
{
    let mut r: Vec<String> = Vec::new();
    if mirror_mode {
        r.push("push".to_owned());
        r.push("--mirror".to_owned());
        r.push("--force".to_owned());
        r.push(url.to_owned());
    } else {
        r.push("push".to_owned());
        r.push("--force".to_owned());
        r.push(url.to_owned());
        r.push("refs/heads/*:refs/heads/*".to_owned());
        r.push("refs/tags/*:refs/tags/*".to_owned());
    }
    assert(views(r@) =~= push_argv(url@, mirror_mode));
    r
}

/// The environment handed to the hooks.
pub open spec fn hook_vars(mirror: Seq<char>, url: Seq<char>, info: Option<PushInfo>) -> Seq<(Seq<char>, Seq<char>)> {
    let base = seq![("POMONA_MIRROR"@, mirror), ("POMONA_URL"@, url)];
    match info {
        Some(i) => base + seq![
            ("POMONA_REMOVED_BLOBS"@, decimal(i.removed@.len())),
            ("POMONA_RECLAIMED_BYTES"@, decimal(i.reclaim_bytes as nat)),
            ("POMONA_BRANCHES"@, joined(views(i.branches@), ","@)),
        ],
        None => base,
    }
}

pub open spec fn env_view(v: Seq<(&'static str, String)>) -> Seq<(Seq<char>, Seq<char>)> {
    v.map_values(|e: (&'static str, String)| (e.0@, e.1@))
}

/// The variables the hooks get: the mirror and the URL, and with push
/// information the number of removed blobs, the bytes reclaimed and the
/// branches.
pub fn hook_env(mirror: &str, url: &str, info: Option<&PushInfo>) -> (r: Vec<(&'static str, String)>)
    ensures
        env_view(r@) == hook_vars(
            mirror@,
            url@,
            match info {
                Some(i) => Some(*i),
                None => None,
            },
        ),
{
    let mut v: Vec<(&'static str, String)> = Vec::new();
    v.push(("POMONA_MIRROR", mirror.to_owned()));
    v.push(("POMONA_URL", url.to_owned()));
    match info {
        Some(i) => {
            let mut removed = String::new();
            push_decimal(&mut removed, i.removed.len() as u64);
            let mut bytes = String::new();
            push_decimal(&mut bytes, i.reclaim_bytes);
            let branches = join_text(&i.branches, ",");
            v.push(("POMONA_REMOVED_BLOBS", removed));
            v.push(("POMONA_RECLAIMED_BYTES", bytes));
            v.push(("POMONA_BRANCHES", branches));
            proof {
                assert(views(i.branches@) == i.branches@.map_values(|s: String| s@));
            }
        },
        None => {},
    }
    assert(env_view(v@) =~= hook_vars(
        mirror@,
        url@,
        match info {
            Some(i) => Some(*i),
            None => None,
        },
    ));
    v
}

/// Index of the first white space at or after `i` (the length when there is none).
pub open spec fn skip_word(s: Seq<char>, i: int) -> int
    decreases s.len() - i,
{
    if i < 0 || i >= s.len() {
        s.len() as int
    } else if is_space(s[i]) {
        i
    } else {
        skip_word(s, i + 1)
    }
}

pub proof fn lemma_skip_bounds(s: Seq<char>, i: int)
    requires
        0 <= i,
    ensures
        i <= skip_space(s, i),
        skip_space(s, i) <= s.len() || skip_space(s, i) == i,
        skip_space(s, i) < s.len() ==> !is_space(s[skip_space(s, i)]),
        i < s.len() && !is_space(s[i]) ==> i < skip_word(s, i) <= s.len(),
    decreases s.len() - i,
{
    if i < s.len() {
        if is_space(s[i]) {
            lemma_skip_bounds(s, i + 1);
        } else {
            lemma_skip_word_bounds(s, i);
        }
    }
}

pub proof fn lemma_skip_word_bounds(s: Seq<char>, i: int)
    requires
        0 <= i,
    ensures
        i <= skip_word(s, i) <= s.len() || (i > s.len() && skip_word(s, i) == s.len()),
        i < s.len() && !is_space(s[i]) ==> i < skip_word(s, i),
        forall|k: int| i <= k < skip_word(s, i) ==> !is_space(#[trigger] s[k]),
        skip_word(s, i) < s.len() ==> is_space(s[skip_word(s, i)]),
    decreases s.len() - i,
{
    if i < s.len() && !is_space(s[i]) {
        lemma_skip_word_bounds(s, i + 1);
    }
}

/// The white-space separated words of `s` from `i` on (`str::split_whitespace`).
pub open spec fn words_from(s: Seq<char>, i: int) -> Seq<Seq<char>>
    decreases s.len() - i,
{
    if i < 0 {
        Seq::empty()
    } else {
        let a = skip_space(s, i);
        proof {
            lemma_skip_bounds(s, i);
        }
        if a >= s.len() {
            Seq::empty()
        } else {
            let b = skip_word(s, a);
            proof {
                lemma_skip_bounds(s, a);
            }
            seq![s.subrange(a, b)] + words_from(s, b)
        }
    }
}

/// The words of `s` (see `words_from`).
fn words_of(s: &[char]) -> (r: Vec<Vec<char>>)
    ensures
        r@.map_values(|w: Vec<char>| w@) == words_from(s@, 0),
{
    let ghost total = words_from(s@, 0);
    let mut r: Vec<Vec<char>> = Vec::new();
    let mut i: usize = 0;
    while i < s.len()
        invariant
            i <= s.len(),
            total == words_from(s@, 0),
            r@.map_values(|w: Vec<char>| w@) + words_from(s@, i as int) == total,
        decreases s.len() - i,
    {
        proof {
            lemma_skip_bounds(s@, i as int);
        }
        let mut a = i;
        while a < s.len() && is_space_exec(s[a])
            invariant
                i <= a <= s.len(),
                skip_space(s@, a as int) == skip_space(s@, i as int),
            decreases s.len() - a,
        {
            a = a + 1;
        }
        if a == s.len() {
            assert(words_from(s@, i as int) =~= Seq::<Seq<char>>::empty());
            i = a;
        } else {
            proof {
                lemma_skip_word_bounds(s@, a as int);
            }
            let mut b = a;
            while b < s.len() && !is_space_exec(s[b])
                invariant
                    a <= b <= s.len(),
                    skip_word(s@, b as int) == skip_word(s@, a as int),
                decreases s.len() - b,
            {
                b = b + 1;
            }
            let w = vstd::slice::slice_to_vec(&s[a..b]);
            let ghost before = r@;
            r.push(w);
            proof {
                assert(w@ =~= s@.subrange(a as int, b as int));
                assert(r@.map_values(|w: Vec<char>| w@) =~= before.map_values(|w: Vec<char>| w@).push(w@));
                assert(words_from(s@, i as int) == seq![s@.subrange(a as int, b as int)] + words_from(s@, b as int));
                assert(r@.map_values(|w: Vec<char>| w@) + words_from(s@, b as int) =~= before.map_values(
                    |w: Vec<char>| w@,
                ) + words_from(s@, i as int));
            }
            i = b;
        }
    }
    assert(words_from(s@, i as int) =~= Seq::<Seq<char>>::empty());
    assert(r@.map_values(|w: Vec<char>| w@) =~= total);
    r
}

/// One record of `ls-tree -r -l -z`: "<mode> <type> <oid> <size>\t<path>";
/// blobs only, as (size, path).
pub open spec fn sized_record(rec: Seq<u8>) -> Option<(u64, Seq<char>)> {
    let tab = find_from(rec, 9u8, 0);
    if rec.len() == 0 || tab == rec.len() {
        None
    } else {
        let w = words_from(utf8_lossy(rec.take(tab)), 0);
        if w.len() < 4 || w[1] != blob_word() {
            None
        } else {
            match u64_text(w[3]) {
                Some(n) => Some((n, utf8_lossy(rec.skip(tab + 1)))),
                None => None,
            }
        }
    }
}

pub open spec fn sized_entries(recs: Seq<Seq<u8>>) -> Seq<(u64, Seq<char>)>
    decreases recs.len(),
{
    if recs.len() == 0 {
        Seq::empty()
    } else {
        let rest = sized_entries(recs.drop_last());
        match sized_record(recs.last()) {
            Some(e) => rest.push(e),
            None => rest,
        }
    }
}

pub open spec fn sized_view(v: Seq<(u64, String)>) -> Seq<(u64, Seq<char>)> {
    v.map_values(|e: (u64, String)| (e.0, e.1@))
}

fn sized_record_exec(rec: &Vec<u8>) -> (r: Option<(u64, String)>)
    ensures
        match r {
            Some(e) => sized_record(rec@) == Some((e.0, e.1@)),
            None => sized_record(rec@) is None,
        },
{
    if rec.len() == 0 {
        return None;
    }
    proof {
        lemma_find_bounds(rec@, 9u8, 0);
    }
    let tab = find_byte(rec.as_slice(), 9u8, 0);
    if tab == rec.len() {
        return None;
    }
    let head = &rec.as_slice()[0..tab];
    assert(head@ =~= rec@.take(tab as int));
    let meta = lossy(head);
    let mc = chars_of(meta.as_str());
    let w = words_of(mc.as_slice());
    let ghost wv = w@.map_values(|x: Vec<char>| x@);
    if w.len() < 4 {
        return None;
    }
    assert(wv[1] == w@[1]@ && wv[3] == w@[3]@);
    let blob = ['b', 'l', 'o', 'b'];
    assert(blob@ =~= blob_word());
    if !chars_eq(w[1].as_slice(), blob.as_slice()) {
        return None;
    }
    let size = match parse_u64(w[3].as_slice()) {
        Some(n) => n,
        None => {
            return None;
        },
    };
    let tail = &rec.as_slice()[tab + 1..rec.len()];
    assert(tail@ =~= rec@.skip(tab + 1));
    Some((size, lossy(tail)))
}

/// Reads `ls-tree -r -l -z` output, keeping the blobs as (size, path).
pub fn parse_sized_listing(bytes: &[u8]) -> (r: Vec<(u64, String)>)
    ensures
        sized_view(r@) == sized_entries(split_seq(bytes@, 0u8)),
{
    let recs = split_bytes(bytes, 0u8);
    let ghost rv = recs@.map_values(|v: Vec<u8>| v@);
    let mut r: Vec<(u64, String)> = Vec::new();
    let mut i: usize = 0;
    while i < recs.len()
        invariant
            i <= recs.len(),
            rv == recs@.map_values(|v: Vec<u8>| v@),
            sized_view(r@) == sized_entries(rv.take(i as int)),
        decreases recs.len() - i,
    {
        proof {
            assert(rv.take(i + 1).drop_last() =~= rv.take(i as int));
            assert(rv.take(i + 1).last() == recs@[i as int]@);
        }
        match sized_record_exec(&recs[i]) {
            Some(e) => {
                let ghost before = r@;
                let ghost ev = (e.0, e.1@);
                r.push(e);
                assert(sized_view(r@) =~= sized_view(before).push(ev));
            },
            None => {},
        }
        i = i + 1;
    }
    assert(rv.take(i as int) =~= rv);
    r
}

/// `a` comes before `b`: larger first, then by path.
pub open spec fn size_before(a: (u64, Seq<char>), b: (u64, Seq<char>)) -> bool {
    a.0 > b.0 || (a.0 == b.0 && str_lt(a.1, b.1))
}

/// No entry is listed after one it should precede.
pub open spec fn sorted_by_size(s: Seq<(u64, Seq<char>)>) -> bool {
    forall|i: int, j: int| 0 <= i < j < s.len() ==> !size_before(#[trigger] s[j], #[trigger] s[i])
}

proof fn lemma_size_order(a: (u64, Seq<char>), b: (u64, Seq<char>), c: (u64, Seq<char>))
    ensures
        !size_before(a, a),
        size_before(a, b) ==> !size_before(b, a),
        size_before(a, b) && size_before(b, c) ==> size_before(a, c),
        size_before(a, b) || size_before(b, a) || a == b,
{
    lemma_str_lt_order(a.1, b.1, c.1);
    lemma_str_lt_order(b.1, a.1, c.1);
}

/// Two orderings by size of the same entries are the same sequence: the
/// largest files of a listing do not depend on how it was sorted.
pub proof fn lemma_sorted_by_size_unique(a: Seq<(u64, Seq<char>)>, b: Seq<(u64, Seq<char>)>)
    requires
        a.to_multiset() == b.to_multiset(),
        sorted_by_size(a),
        sorted_by_size(b),
    ensures
        a == b,
    decreases a.len(),
{
    broadcast use vstd::seq_lib::to_multiset_remove, vstd::seq_lib::to_multiset_contains;

    assert(a.len() == a.to_multiset().len());
    assert(b.len() == b.to_multiset().len());
    if a.len() == 0 {
        assert(a =~= b);
    } else {
        let x = a[0];
        let y = b[0];
        assert(a.to_multiset().count(y) > 0) by {
            assert(b.contains(y));
        }
        assert(b.to_multiset().count(x) > 0) by {
            assert(a.contains(x));
        }
        let k = choose|k: int| 0 <= k < a.len() && a[k] == y;
        let m = choose|m: int| 0 <= m < b.len() && b[m] == x;
        lemma_size_order(x, y, x);
        if x != y {
            assert(k != 0 && m != 0);
            assert(!size_before(a[k], a[0]));
            assert(!size_before(b[m], b[0]));
        }
        assert(x == y);
        let a1 = a.remove(0);
        let b1 = b.remove(0);
        assert(a1.to_multiset() == b1.to_multiset());
        assert forall|i: int, j: int| 0 <= i < j < a1.len() implies !size_before(#[trigger] a1[j], #[trigger] a1[i]) by {
            assert(a1[i] == a[i + 1] && a1[j] == a[j + 1]);
        }
        assert forall|i: int, j: int| 0 <= i < j < b1.len() implies !size_before(#[trigger] b1[j], #[trigger] b1[i]) by {
            assert(b1[i] == b[i + 1] && b1[j] == b[j + 1]);
        }
        lemma_sorted_by_size_unique(a1, b1);
        assert(a =~= seq![x] + a1);
        assert(b =~= seq![y] + b1);
    }
}

fn size_before_exec(a: &(u64, String), b: &(u64, String)) -> (r: bool)
    ensures
        r == size_before((a.0, a.1@), (b.0, b.1@)),
{
    if a.0 != b.0 {
        a.0 > b.0
    } else {
        proof {
            lemma_str_lt_order(a.1@, b.1@, b.1@);
        }
        match compare_str(a.1.as_str(), b.1.as_str()) {
            Rank::Less => true,
            _ => false,
        }
    }
}

/// The first position of `s` whose entry `x` comes before.
fn size_slot(s: &Vec<(u64, String)>, x: &(u64, String)) -> (p: usize)
    requires
        sorted_by_size(sized_view(s@)),
    ensures
        p <= s.len(),
        forall|k: int| 0 <= k < p ==> !size_before((x.0, x.1@), #[trigger] sized_view(s@)[k]),
        forall|k: int| p <= k < s.len() ==> size_before((x.0, x.1@), #[trigger] sized_view(s@)[k]),
{
    let ghost v = sized_view(s@);
    let ghost xv = (x.0, x.1@);
    let mut lo: usize = 0;
    let mut hi: usize = s.len();
    while lo < hi
        invariant
            v == sized_view(s@),
            xv == (x.0, x.1@),
            sorted_by_size(v),
            lo <= hi <= s.len(),
            forall|k: int| 0 <= k < lo ==> !size_before(xv, #[trigger] v[k]),
            forall|k: int| hi <= k < s.len() ==> size_before(xv, #[trigger] v[k]),
        decreases hi - lo,
    {
        let mid = lo + (hi - lo) / 2;
        assert(v[mid as int] == (s@[mid as int].0, s@[mid as int].1@));
        if size_before_exec(x, &s[mid]) {
            assert forall|k: int| mid <= k < s.len() implies size_before(xv, #[trigger] v[k]) by {
                if k > mid {
                    lemma_size_order(xv, v[mid as int], v[k]);
                    lemma_size_order(v[k], v[mid as int], xv);
                    lemma_size_order(v[mid as int], v[k], xv);
                }
            }
            hi = mid;
        } else {
            assert forall|k: int| 0 <= k < mid + 1 implies !size_before(xv, #[trigger] v[k]) by {
                if k < mid && size_before(xv, v[k]) {
                    lemma_size_order(xv, v[k], v[mid as int]);
                    lemma_size_order(v[k], v[mid as int], xv);
                    lemma_size_order(v[mid as int], v[k], xv);
                }
            }
            lo = mid + 1;
        }
    }
    lo
}

/// The entries of `v`, larger first, then by path.
pub fn sort_by_size(v: &Vec<(u64, String)>) -> (r: Vec<(u64, String)>)
    ensures
        sorted_by_size(sized_view(r@)),
        sized_view(r@).to_multiset() == sized_view(v@).to_multiset(),
{
    let mut r: Vec<(u64, String)> = Vec::new();
    let mut i: usize = 0;
    assert(sized_view(r@) =~= Seq::<(u64, Seq<char>)>::empty());
    while i < v.len()
        invariant
            i <= v.len(),
            sorted_by_size(sized_view(r@)),
            sized_view(r@).to_multiset() == sized_view(v@).take(i as int).to_multiset(),
        decreases v.len() - i,
    {
        let x = (v[i].0, v[i].1.clone());
        let ghost xv = (x.0, x.1@);
        let p = size_slot(&r, &x);
        let ghost before = sized_view(r@);
        r.insert(p, x);
        proof {
            assert(sized_view(r@) =~= before.insert(p as int, xv));
            assert(sized_view(v@).take(i + 1) =~= sized_view(v@).take(i as int).push(xv));
            let after = sized_view(r@);
            assert forall|a: int, b: int| 0 <= a < b < after.len()
                implies !size_before(#[trigger] after[b], #[trigger] after[a]) by {
                if b < p {
                    assert(after[a] == before[a] && after[b] == before[b]);
                } else if b == p {
                    assert(after[a] == before[a]);
                } else if a == p {
                    assert(after[b] == before[b - 1]);
                    lemma_size_order(xv, before[b - 1], xv);
                } else if a < p {
                    assert(after[a] == before[a] && after[b] == before[b - 1]);
                } else {
                    assert(after[a] == before[a - 1] && after[b] == before[b - 1]);
                }
            }
        }
        i = i + 1;
    }
    assert(sized_view(v@).take(i as int) =~= sized_view(v@));
    r
}

/// `r` is made of the `n` largest files of a sized tree listing, larger
/// first, then by path (all of them when there are fewer).
pub open spec fn is_largest(listing: Seq<u8>, n: usize, r: Seq<(u64, Seq<char>)>) -> bool {
    exists|full: Seq<(u64, Seq<char>)>|
        #![trigger sorted_by_size(full)]
        full.to_multiset() == sized_entries(split_seq(listing, 0u8)).to_multiset() && sorted_by_size(full) && r
            == full.take(
            if n < full.len() {
                n as int
            } else {
                full.len() as int
            },
        )
}

/// The `n` largest files of a sized tree listing, larger first, then by path.
pub fn largest_in_listing(bytes: &[u8], n: usize) -> (r: Vec<(u64, String)>)
    ensures
        r@.len() <= n,
        is_largest(bytes@, n, sized_view(r@)),
{
    let v = parse_sized_listing(bytes);
    let mut s = sort_by_size(&v);
    let ghost full = sized_view(s@);
    s.truncate(n);
    proof {
        if n < full.len() {
            assert(sized_view(s@) =~= full.take(n as int));
        } else {
            assert(sized_view(s@) =~= full.take(full.len() as int));
        }
        assert(sorted_by_size(full));
    }
    s
}

pub open spec fn sized_list_args(rev: Seq<char>) -> Seq<Seq<char>> {
    seq!["ls-tree"@, "-r"@, "-l"@, "-z"@, rev]
}

/// The `n` largest files in the tree of `rev`, larger first, then by path:
/// one call of `ls-tree -r -l -z <rev>`.
pub fn largest_files<G: Git>(g: &mut GitLog<G>, repo: &str, rev: &str, n: usize) -> (r: Result<Vec<(u64, String)>, ToolError>)
    ensures
        one_more(old(g).calls(), final(g).calls()),
        captured(final(g).calls().last(), repo@, sized_list_args(rev@), None),
        match final(g).calls().last().out {
            Some(o) => r matches Ok(v) && v@.len() <= n && is_largest(o, n, sized_view(v@)),
            None => r is Err,
        },
{
    let args = ["ls-tree", "-r", "-l", "-z", rev];
    assert(str_views(args@) =~= sized_list_args(rev@));
    match g.run(Some(repo), args.as_slice(), None) {
        Ok(raw) => Ok(largest_in_listing(raw.as_slice(), n)),
        Err(e) => Err(e),
    }
}

} // verus!
