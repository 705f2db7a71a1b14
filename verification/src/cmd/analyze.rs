//! What `analyze` decides from its arguments and its picks.
use vstd::prelude::*;
use crate::model::{reason_name, Pick};
use crate::plan::{Plan, PlanPath, PlanPolicy, PlanSource, PLAN_VERSION};
use crate::stats::SortBy;
use crate::text::chars_of;

verus! {

/// `pat` occurs in `s`.
pub open spec fn occurs(s: Seq<char>, pat: Seq<char>) -> bool {
    exists|i: int| 0 <= i <= s.len() - pat.len() && #[trigger] s.subrange(i, i + pat.len()) == pat
}

/// Whether `s` looks like a remote URL (`scheme://...` or `user@host:path`)
/// rather than a local directory.
pub open spec fn url_like(s: Seq<char>) -> bool {
    occurs(s, seq![':', '/', '/']) || (s.contains('@') && s.contains(':'))
}

fn has_char(cs: &Vec<char>, c: char) -> (b: bool)
    ensures
        b == cs@.contains(c),
{
    let mut i: usize = 0;
    while i < cs.len()
        invariant
            i <= cs.len(),
            forall|k: int| 0 <= k < i ==> cs@[k] != c,
        decreases cs.len() - i,
    {
        if cs[i] == c {
            assert(cs@[i as int] == c);
            return true;
        }
        i = i + 1;
    }
    false
}

/// Whether `s` looks like a remote URL rather than a local directory.
pub fn is_url(s: &str) -> (b: bool)
    ensures
        b == url_like(s@),
{
    let cs = chars_of(s);
    let ghost pat = seq![':', '/', '/'];
    let mut found = false;
    if cs.len() >= 3 {
        let last = cs.len() - 3;
        let mut i: usize = 0;
        while i <= last
            invariant
                cs@ == s@,
                last == cs.len() - 3,
                i <= last + 1,
                pat == seq![':', '/', '/'],
                found ==> occurs(s@, pat),
                !found ==> forall|k: int| 0 <= k < i ==> #[trigger] s@.subrange(k, k + 3) != pat,
            decreases last + 1 - i,
        {
            if cs[i] == ':' && cs[i + 1] == '/' && cs[i + 2] == '/' {
                assert(s@.subrange(i as int, i + 3) =~= pat);
                found = true;
            } else {
                assert(s@.subrange(i as int, i + 3)[0] == cs@[i as int]);
                assert(s@.subrange(i as int, i + 3)[1] == cs@[i + 1]);
                assert(s@.subrange(i as int, i + 3)[2] == cs@[i + 2]);
                assert(pat[0] == ':' && pat[1] == '/' && pat[2] == '/');
            }
            i = i + 1;
        }
    }
    if found {
        return true;
    }
    has_char(&cs, '@') && has_char(&cs, ':')
}

/// The measure the N largest are ranked by: "cum" for all versions
/// together, anything else for the largest single version.
pub fn sort_choice(name: &str) -> (r: SortBy)
    ensures
        r == (if name@ == "cum"@ {
            SortBy::Cum
        } else {
            SortBy::Max
        }),
{
    if crate::order::str_eq(name, "cum") {
        SortBy::Cum
    } else {
        SortBy::Max
    }
}

pub open spec fn plan_paths_view(v: Seq<PlanPath>) -> Seq<(Seq<char>, Seq<char>)> {
    v.map_values(|p: PlanPath| (p.path@, p.reason@))
}

pub open spec fn picks_view(v: Seq<Pick>) -> Seq<(Seq<char>, Seq<char>)> {
    v.map_values(|p: Pick| (p.path@, reason_name(p.reason)))
}

/// The plan that records `picks` for a repository, in pick order.
pub fn plan_of_picks(
    generated_by: String,
    url: Option<String>,
    local: String,
    remote: String,
    min_size: u64,
    keep_refs: Vec<String>,
    picks: &Vec<Pick>,
) -> (p: Plan)
    ensures
        p.version == PLAN_VERSION,
        p.generated_by == generated_by,
        p.source == (PlanSource { url, local: Some(local), remote }),
        p.policy == (PlanPolicy { min_size, keep_refs }),
        plan_paths_view(p.paths@) == picks_view(picks@),
{
    let mut paths: Vec<PlanPath> = Vec::new();
    let mut i: usize = 0;
    while i < picks.len()
        invariant
            i <= picks.len(),
            plan_paths_view(paths@) == picks_view(picks@.take(i as int)),
        decreases picks.len() - i,
    {
        let pp = PlanPath { path: picks[i].path.clone(), reason: picks[i].reason.to_string() };
        let ghost before = paths@;
        paths.push(pp);
        assert(plan_paths_view(paths@) =~= picks_view(picks@.take(i + 1))) by {
            assert(plan_paths_view(paths@) =~= plan_paths_view(before).push((pp.path@, pp.reason@)));
            assert(picks@.take(i + 1) =~= picks@.take(i as int).push(picks@[i as int]));
        }
        i = i + 1;
    }
    assert(picks@.take(i as int) =~= picks@);
    Plan {
        version: PLAN_VERSION,
        generated_by,
        source: PlanSource { url, local: Some(local), remote },
        policy: PlanPolicy { min_size, keep_refs },
        paths,
    }
}

} // verus!
