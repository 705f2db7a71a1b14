//! Choosing the paths to clean: by rule (orphans, size, suffix, pattern)
//! or by asking about the largest ones.
use vstd::prelude::*;
use vstd::seq_lib::group_to_multiset_ensures;
use regex::Regex;
use crate::error::ToolError;
use crate::model::{Inventory, Pick, Reason};
use crate::profile::{suffix_hit, Profile};
use crate::prompt::{
    all_answered, asked_since, follows_script, lemma_script_step, script_after, scripted_at, Answer, Asked, Prompt,
};
use crate::size::{human, human_text};
use crate::stats::{sort_stats, sorted_stats, SortBy};
use crate::strset::{views, StrSet};
use crate::model::PathStats;
use crate::term::{grows, lemma_grows_append, paint, painted, Color, Shown, Sink};
use crate::text::{chars_of, decimal, has_prefix, join_text, push_decimal, push_str, string_of};

verus! {

broadcast use group_to_multiset_ensures;

#[verifier::external_type_specification]
#[verifier::external_body]
pub struct ExRegex(regex::Regex);

#[verifier::external_type_specification]
#[verifier::external_body]
pub struct ExRegexError(regex::Error);

/// Whether the regular expression `pattern`, compiled by `regex::Regex::new`,
/// matches somewhere in `haystack`.
pub uninterp spec fn regex_matches(pattern: Seq<char>, haystack: Seq<char>) -> bool;

/// Whether `regex::Regex::new` accepts `pattern` (under the crate's default
/// size limits).
pub uninterp spec fn regex_compiles(pattern: Seq<char>) -> bool;

/// `regex::Regex::new`: compiles `pattern`; it fails on a syntax error or
/// when the compiled form exceeds the crate's default size limits. Claimed:
/// whether it succeeds depends on the pattern text alone.
#[verifier::external_body]
fn compile(pattern: &str) -> (r: Result<Regex, regex::Error>)
    ensures
        r is Ok <==> regex_compiles(pattern@),
{
    Regex::new(pattern)
}

/// A pattern that a path may match, with its source text.
pub struct Pattern {
    source: String,
    re: Regex,
}

/// A pattern that does not compile, and why.
#[derive(Debug)]
pub struct PatternError {
    pub pattern: String,
    pub message: String,
}

impl Pattern {
    pub closed spec fn source(&self) -> Seq<char> {
        self.source@
    }

    /// Compiles `pattern`; an error exactly when the regex crate refuses it.
    pub fn new(pattern: &str) -> (r: Result<Pattern, PatternError>)
        ensures
            r is Ok <==> regex_compiles(pattern@),
            r matches Ok(p) ==> p.source() == pattern@,
            r matches Err(e) ==> e.pattern@ == pattern@,
    {
        match compile(pattern) {
            Ok(re) => Ok(Pattern { source: pattern.to_owned(), re }),
            Err(e) => Err(PatternError { pattern: pattern.to_owned(), message: e.to_string() }),
        }
    }

    /// `regex::Regex::is_match` on the regex compiled from `self.source()`:
    /// claimed to be a function of the pattern text and the haystack alone.
    #[verifier::external_body]
    pub(crate) fn is_match(&self, haystack: &str) -> (b: bool)
        ensures
            b == regex_matches(self.source(), haystack@),
    {
        self.re.is_match(haystack)
    }
}

pub open spec fn sources(pats: Seq<Pattern>) -> Seq<Seq<char>> {
    pats.map_values(|p: Pattern| p.source())
}

pub open spec fn any_match(pats: Seq<Seq<char>>, path: Seq<char>) -> bool {
    exists|i: int| 0 <= i < pats.len() && regex_matches(#[trigger] pats[i], path)
}

/// The rules of a non-interactive selection.
pub struct RuleSet<'a> {
    pub orphans: bool,
    pub auto_detect: bool,
    pub regexes: Vec<Pattern>,
    pub min_size: u64,
    pub profile: &'a Profile,
}

/// A package or large file: one version reaches the threshold, or the
/// path has an archive suffix.
pub open spec fn qualifies_spec(max: u64, path: Seq<char>, min_size: u64, profile: Profile) -> bool {
    max >= min_size || suffix_hit(views(profile.archive_suffixes@), path)
}

pub fn qualifies(max: u64, path: &str, min_size: u64, profile: &Profile) -> (b: bool)
    ensures
        b == qualifies_spec(max, path@, min_size, *profile),
{
    max >= min_size || profile.is_archive(path)
}

/// The reason the rules give for a path, if any.
pub open spec fn rule_reason(s: PathStats, rules: RuleSet) -> Option<Reason> {
    if rules.auto_detect && s.max >= rules.min_size {
        Some(Reason::Size)
    } else if rules.auto_detect && suffix_hit(views(rules.profile.archive_suffixes@), s.path@) {
        Some(Reason::Suffix)
    } else if any_match(sources(rules.regexes@), s.path@) {
        Some(Reason::Regex)
    } else {
        None
    }
}

/// Orphan paths of `stats`, in order.
pub open spec fn orphan_picks(stats: Seq<PathStats>, keep: Set<Seq<char>>) -> Seq<(Seq<char>, Reason)>
    decreases stats.len(),
{
    if stats.len() == 0 {
        Seq::empty()
    } else {
        let rest = orphan_picks(stats.drop_last(), keep);
        if !keep.contains(stats.last().path@) {
            rest.push((stats.last().path@, Reason::Orphan))
        } else {
            rest
        }
    }
}

/// Paths of `stats` the size, suffix and pattern rules choose, in order.
pub open spec fn rule_picks(stats: Seq<PathStats>, rules: RuleSet) -> Seq<(Seq<char>, Reason)>
    decreases stats.len(),
{
    if stats.len() == 0 {
        Seq::empty()
    } else {
        let rest = rule_picks(stats.drop_last(), rules);
        match rule_reason(stats.last(), rules) {
            Some(r) => rest.push((stats.last().path@, r)),
            None => rest,
        }
    }
}

/// Each path once, with the first reason it was chosen for.
pub open spec fn first_by_path(c: Seq<(Seq<char>, Reason)>) -> Seq<(Seq<char>, Reason)>
    decreases c.len(),
{
    if c.len() == 0 {
        Seq::empty()
    } else {
        let d = first_by_path(c.drop_last());
        if exists|j: int| 0 <= j < c.len() - 1 && (#[trigger] c[j]).0 == c.last().0 {
            d
        } else {
            d.push(c.last())
        }
    }
}

pub open spec fn pick_view(v: Seq<Pick>) -> Seq<(Seq<char>, Reason)> {
    v.map_values(|p: Pick| (p.path@, p.reason))
}

pub open spec fn first_paths(c: Seq<(Seq<char>, Reason)>) -> Set<Seq<char>> {
    c.map_values(|x: (Seq<char>, Reason)| x.0).to_set()
}

/// What the rules choose from `inv`: orphans first (when asked for), then
/// size / suffix / pattern hits in the order of the statistics; each path once.
pub open spec fn rules_choose(inv: Inventory, rules: RuleSet) -> Seq<(Seq<char>, Reason)> {
    let orphans = if rules.orphans {
        orphan_picks(inv.stats@, inv.keep_paths@)
    } else {
        Seq::empty()
    };
    first_by_path(orphans + rule_picks(inv.stats@, rules))
}

pub open spec fn chosen_paths(c: Seq<(Seq<char>, Reason)>) -> Seq<Seq<char>> {
    c.map_values(|x: (Seq<char>, Reason)| x.0)
}

/// Every choice the rules keep is one of the hits.
pub proof fn lemma_first_by_path_from(c: Seq<(Seq<char>, Reason)>)
    ensures
        forall|i: int| 0 <= i < first_by_path(c).len() ==> c.contains(#[trigger] first_by_path(c)[i]),
    decreases c.len(),
{
    if c.len() > 0 {
        let p = c.drop_last();
        lemma_first_by_path_from(p);
        let d = first_by_path(p);
        let f = first_by_path(c);
        assert forall|i: int| 0 <= i < f.len() implies c.contains(#[trigger] f[i]) by {
            if i < d.len() {
                assert(f[i] == d[i]);
                assert(p.contains(d[i]));
                let k = choose|k: int| 0 <= k < p.len() && p[k] == d[i];
                assert(c[k] == p[k]);
            } else {
                assert(f[i] == c.last());
                assert(c[c.len() - 1] == c.last());
            }
        }
    }
}

/// The rules choose each path at most once.
pub proof fn lemma_first_by_path_once(c: Seq<(Seq<char>, Reason)>)
    ensures
        chosen_paths(first_by_path(c)).no_duplicates(),
    decreases c.len(),
{
    if c.len() > 0 {
        let p = c.drop_last();
        lemma_first_by_path_once(p);
        lemma_first_by_path_from(p);
        let d = first_by_path(p);
        let f = first_by_path(c);
        if !(exists|j: int| 0 <= j < c.len() - 1 && (#[trigger] c[j]).0 == c.last().0) {
            assert(f == d.push(c.last()));
            let fp = chosen_paths(f);
            let dp = chosen_paths(d);
            assert forall|i: int, j: int| 0 <= i < fp.len() && 0 <= j < fp.len() && i != j implies fp[i] != fp[j] by {
                if i < d.len() && j < d.len() {
                    assert(fp[i] == dp[i] && fp[j] == dp[j]);
                } else {
                    let a = if i < d.len() { i } else { j };
                    assert(fp[a] == d[a].0);
                    assert(p.contains(d[a]));
                    let k = choose|k: int| 0 <= k < p.len() && p[k] == d[a];
                    assert(c[k] == p[k]);
                }
            }
        }
    }
}

/// Every path the rules hit is chosen.
pub proof fn lemma_first_by_path_covers(c: Seq<(Seq<char>, Reason)>)
    ensures
        forall|k: int| 0 <= k < c.len() ==> chosen_paths(first_by_path(c)).contains(#[trigger] c[k].0),
    decreases c.len(),
{
    if c.len() > 0 {
        let p = c.drop_last();
        lemma_first_by_path_covers(p);
        let d = first_by_path(p);
        let f = first_by_path(c);
        let dp = chosen_paths(d);
        let fp = chosen_paths(f);
        assert forall|k: int| 0 <= k < c.len() implies fp.contains(#[trigger] c[k].0) by {
            if exists|j: int| 0 <= j < c.len() - 1 && (#[trigger] c[j]).0 == c.last().0 {
                assert(f == d);
                if k < c.len() - 1 {
                    assert(p[k] == c[k]);
                    assert(dp.contains(p[k].0));
                } else {
                    let j = choose|j: int| 0 <= j < c.len() - 1 && (#[trigger] c[j]).0 == c.last().0;
                    assert(p[j] == c[j]);
                    assert(dp.contains(p[j].0));
                }
            } else {
                assert(f == d.push(c.last()));
                if k < c.len() - 1 {
                    assert(p[k] == c[k]);
                    assert(dp.contains(p[k].0));
                    let i = choose|i: int| 0 <= i < dp.len() && dp[i] == p[k].0;
                    assert(fp[i] == dp[i]);
                } else {
                    assert(fp[fp.len() - 1] == c.last().0);
                }
            }
        }
    }
}

proof fn lemma_rule_picks_has(stats: Seq<PathStats>, rules: RuleSet, k: int)
    requires
        0 <= k < stats.len(),
        rule_reason(stats[k], rules) is Some,
    ensures
        rule_picks(stats, rules).contains((stats[k].path@, rule_reason(stats[k], rules)->0)),
    decreases stats.len(),
{
    let rest = rule_picks(stats.drop_last(), rules);
    if k < stats.len() - 1 {
        assert(stats.drop_last()[k] == stats[k]);
        lemma_rule_picks_has(stats.drop_last(), rules, k);
        let i = choose|i: int| 0 <= i < rest.len() && rest[i] == (stats[k].path@, rule_reason(stats[k], rules)->0);
        if rule_reason(stats.last(), rules) is Some {
            assert(rule_picks(stats, rules)[i] == rest[i]);
        }
    } else {
        assert(stats.last() == stats[k]);
        let all = rule_picks(stats, rules);
        assert(all[all.len() - 1] == (stats[k].path@, rule_reason(stats[k], rules)->0));
    }
}

proof fn lemma_rule_picks_from(stats: Seq<PathStats>, rules: RuleSet)
    ensures
        forall|x: (Seq<char>, Reason)|
            rule_picks(stats, rules).contains(x) ==> exists|j: int|
                0 <= j < stats.len() && #[trigger] stats[j].path@ == x.0 && rule_reason(stats[j], rules) == Some(x.1),
    decreases stats.len(),
{
    if stats.len() > 0 {
        let d = stats.drop_last();
        lemma_rule_picks_from(d, rules);
        let rest = rule_picks(d, rules);
        let all = rule_picks(stats, rules);
        assert forall|x: (Seq<char>, Reason)| all.contains(x) implies exists|j: int|
            0 <= j < stats.len() && #[trigger] stats[j].path@ == x.0 && rule_reason(stats[j], rules) == Some(x.1) by {
            let i = choose|i: int| 0 <= i < all.len() && all[i] == x;
            if i < rest.len() {
                assert(all[i] == rest[i]);
                assert(rest.contains(x));
                let j = choose|j: int| 0 <= j < d.len() && #[trigger] d[j].path@ == x.0 && rule_reason(d[j], rules) == Some(x.1);
                assert(stats[j] == d[j]);
            } else {
                assert(stats[stats.len() - 1] == stats.last());
            }
        }
    }
}

proof fn lemma_orphan_picks_from(stats: Seq<PathStats>, keep: Set<Seq<char>>)
    ensures
        forall|x: (Seq<char>, Reason)| orphan_picks(stats, keep).contains(x) ==> !keep.contains(x.0),
    decreases stats.len(),
{
    if stats.len() > 0 {
        lemma_orphan_picks_from(stats.drop_last(), keep);
        let rest = orphan_picks(stats.drop_last(), keep);
        let all = orphan_picks(stats, keep);
        assert forall|x: (Seq<char>, Reason)| all.contains(x) implies !keep.contains(x.0) by {
            let i = choose|i: int| 0 <= i < all.len() && all[i] == x;
            if i < rest.len() {
                assert(all[i] == rest[i]);
                assert(rest.contains(x));
            }
        }
    }
}

/// A pattern is a rule of its own: a path that some pattern matches and
/// that the size and suffix rules do not take (auto-detection off, or a
/// smaller single version and no archive suffix) is chosen for its pattern,
/// whether auto-detection is on or not, unless it was already chosen as an
/// orphan.
pub proof fn lemma_pattern_chooses(inv: Inventory, rules: RuleSet, k: int)
    requires
        0 <= k < inv.stats@.len(),
        forall|i: int, j: int|
            0 <= i < inv.stats@.len() && 0 <= j < inv.stats@.len() && i != j ==> #[trigger] inv.stats@[i].path@
                != #[trigger] inv.stats@[j].path@,
        rules.orphans ==> inv.keep_paths@.contains(inv.stats@[k].path@),
        !(rules.auto_detect && inv.stats@[k].max >= rules.min_size),
        !(rules.auto_detect && suffix_hit(views(rules.profile.archive_suffixes@), inv.stats@[k].path@)),
        exists|i: int| 0 <= i < rules.regexes@.len() && regex_matches(#[trigger] rules.regexes@[i].source(), inv.stats@[k].path@),
    ensures
        rules_choose(inv, rules).contains((inv.stats@[k].path@, Reason::Regex)),
{
    let stats = inv.stats@;
    let p = stats[k].path@;
    let i0 = choose|i: int| 0 <= i < rules.regexes@.len() && regex_matches(#[trigger] rules.regexes@[i].source(), p);
    assert(sources(rules.regexes@)[i0] == rules.regexes@[i0].source());
    assert(any_match(sources(rules.regexes@), p));
    assert(rule_reason(stats[k], rules) == Some(Reason::Regex));
    let orphans = if rules.orphans {
        orphan_picks(stats, inv.keep_paths@)
    } else {
        Seq::empty()
    };
    let rp = rule_picks(stats, rules);
    let c = orphans + rp;
    lemma_rule_picks_has(stats, rules, k);
    lemma_rule_picks_from(stats, rules);
    lemma_orphan_picks_from(stats, inv.keep_paths@);
    let m = choose|m: int| 0 <= m < rp.len() && rp[m] == (p, Reason::Regex);
    assert(c[orphans.len() + m] == rp[m]);
    lemma_first_by_path_covers(c);
    lemma_first_by_path_from(c);
    let f = first_by_path(c);
    assert(chosen_paths(f).contains(c[orphans.len() + m].0));
    let i = choose|i: int| 0 <= i < chosen_paths(f).len() && chosen_paths(f)[i] == p;
    assert(f[i].0 == p);
    assert(c.contains(f[i]));
    let n = choose|n: int| 0 <= n < c.len() && c[n] == f[i];
    if n < orphans.len() {
        assert(orphans[n] == f[i]);
        assert(orphans.contains(f[i]));
        assert(false);
    } else {
        assert(rp[n - orphans.len()] == f[i]);
        assert(rp.contains(f[i]));
        let j = choose|j: int| 0 <= j < stats.len() && #[trigger] stats[j].path@ == f[i].0 && rule_reason(stats[j], rules) == Some(f[i].1);
        assert(j == k);
    }
    assert(f[i] == (p, Reason::Regex));
}

fn push_unique(
    picks: &mut Vec<Pick>,
    seen: &mut StrSet,
    path: &String,
    reason: Reason,
    Ghost(done): Ghost<Seq<(Seq<char>, Reason)>>,
)
    requires
        pick_view(old(picks)@) == first_by_path(done),
        old(seen)@ == first_paths(done),
    ensures
        pick_view(final(picks)@) == first_by_path(done.push((path@, reason))),
        final(seen)@ == first_paths(done.push((path@, reason))),
{
    let ghost c = done.push((path@, reason));
    proof {
        assert(c.drop_last() =~= done);
        assert(c.map_values(|x: (Seq<char>, Reason)| x.0) =~= done.map_values(|x: (Seq<char>, Reason)| x.0).push(
            path@,
        ));
        assert(first_paths(c) =~= first_paths(done).insert(path@)) by {
            let a = c.map_values(|x: (Seq<char>, Reason)| x.0);
            let b = done.map_values(|x: (Seq<char>, Reason)| x.0);
            assert forall|z: Seq<char>| a.contains(z) <==> b.contains(z) || z == path@ by {
                if a.contains(z) {
                    let k = choose|k: int| 0 <= k < a.len() && a[k] == z;
                    if k < b.len() {
                        assert(b[k] == z);
                    }
                }
                if b.contains(z) {
                    let k = choose|k: int| 0 <= k < b.len() && b[k] == z;
                    assert(a[k] == z);
                }
                if z == path@ {
                    assert(a[b.len() as int] == z);
                }
            }
        }
        let b = done.map_values(|x: (Seq<char>, Reason)| x.0);
        assert(b.contains(path@) <==> exists|j: int| 0 <= j < c.len() - 1 && (#[trigger] c[j]).0 == c.last().0) by {
            if b.contains(path@) {
                let k = choose|k: int| 0 <= k < b.len() && b[k] == path@;
                assert(c[k].0 == c.last().0);
            }
            if exists|j: int| 0 <= j < c.len() - 1 && (#[trigger] c[j]).0 == c.last().0 {
                let j = choose|j: int| 0 <= j < c.len() - 1 && (#[trigger] c[j]).0 == c.last().0;
                assert(b[j] == path@);
            }
        }
    }
    if seen.insert(path.clone()) {
        let ghost before = picks@;
        picks.push(Pick { path: path.clone(), reason });
        assert(pick_view(picks@) =~= pick_view(before).push((path@, reason)));
    }
}

/// Order: orphans, then auto detection / patterns; each path once.
pub fn apply_rules(inv: &Inventory, rules: &RuleSet) -> (picks: Vec<Pick>)
    ensures
        pick_view(picks@) == rules_choose(*inv, *rules),
{
    let mut seen = StrSet::new();
    let mut picks: Vec<Pick> = Vec::new();
    let ghost orphans = if rules.orphans {
        orphan_picks(inv.stats@, inv.keep_paths@)
    } else {
        Seq::<(Seq<char>, Reason)>::empty()
    };
    proof {
        assert(pick_view(picks@) =~= first_by_path(Seq::empty()));
        assert(first_paths(Seq::empty()) =~= Set::<Seq<char>>::empty());
    }
    if rules.orphans {
        let mut i: usize = 0;
        while i < inv.stats.len()
            invariant
                i <= inv.stats.len(),
                pick_view(picks@) == first_by_path(orphan_picks(inv.stats@.take(i as int), inv.keep_paths@)),
                seen@ == first_paths(orphan_picks(inv.stats@.take(i as int), inv.keep_paths@)),
            decreases inv.stats.len() - i,
        {
            proof {
                assert(inv.stats@.take(i + 1).drop_last() =~= inv.stats@.take(i as int));
            }
            if inv.is_orphan(inv.stats[i].path.as_str()) {
                push_unique(
                    &mut picks,
                    &mut seen,
                    &inv.stats[i].path,
                    Reason::Orphan,
                    Ghost(orphan_picks(inv.stats@.take(i as int), inv.keep_paths@)),
                );
            }
            i = i + 1;
        }
        assert(inv.stats@.take(i as int) =~= inv.stats@);
    }
    let mut i: usize = 0;
    while i < inv.stats.len()
        invariant
            i <= inv.stats.len(),
            orphans == (if rules.orphans {
                orphan_picks(inv.stats@, inv.keep_paths@)
            } else {
                Seq::<(Seq<char>, Reason)>::empty()
            }),
            pick_view(picks@) == first_by_path(orphans + rule_picks(inv.stats@.take(i as int), *rules)),
            seen@ == first_paths(orphans + rule_picks(inv.stats@.take(i as int), *rules)),
        decreases inv.stats.len() - i,
    {
        let s = &inv.stats[i];
        let ghost done = orphans + rule_picks(inv.stats@.take(i as int), *rules);
        proof {
            assert(inv.stats@.take(i + 1).drop_last() =~= inv.stats@.take(i as int));
            assert(inv.stats@.take(i + 1).last() == *s);
        }
        let reason = if rules.auto_detect && s.max >= rules.min_size {
            Some(Reason::Size)
        } else if rules.auto_detect && rules.profile.is_archive(s.path.as_str()) {
            Some(Reason::Suffix)
        } else {
            let mut hit = false;
            let mut j: usize = 0;
            while j < rules.regexes.len()
                invariant
                    j <= rules.regexes.len(),
                    hit == exists|k: int| 0 <= k < j && regex_matches(#[trigger] sources(rules.regexes@)[k], s.path@),
                decreases rules.regexes.len() - j,
            {
                if rules.regexes[j].is_match(s.path.as_str()) {
                    hit = true;
                }
                assert(sources(rules.regexes@)[j as int] == rules.regexes@[j as int].source());
                j = j + 1;
            }
            if hit {
                Some(Reason::Regex)
            } else {
                None
            }
        };
        assert(reason == rule_reason(*s, *rules));
        match reason {
            Some(r) => {
                push_unique(&mut picks, &mut seen, &s.path, r, Ghost(done));
                proof {
                    assert(orphans + rule_picks(inv.stats@.take(i + 1), *rules) =~= done.push((s.path@, r)));
                }
            },
            None => {
                assert(orphans + rule_picks(inv.stats@.take(i + 1), *rules) =~= done);
            },
        }
        i = i + 1;
    }
    assert(inv.stats@.take(i as int) =~= inv.stats@);
    picks
}

/// Why a path is a candidate, as listed to the user.
pub open spec fn reasons_spec(inv: Inventory, s: PathStats, min_size: u64, profile: Profile) -> Seq<Seq<char>> {
    let a = if s.max >= min_size {
        seq!["超阈值("@ + human_text(s.max) + ")"@]
    } else {
        Seq::empty()
    };
    let b = if suffix_hit(views(profile.archive_suffixes@), s.path@) {
        seq!["包扩展名"@]
    } else {
        Seq::empty()
    };
    let c = if suffix_hit(views(profile.source_suffixes@), s.path@) {
        seq!["源码"@]
    } else {
        Seq::empty()
    };
    let n = inv.tips.branches(s.path@).len();
    let d = if n > 0 {
        seq![decimal(n) + " 个分支的最新版仍在用"@]
    } else {
        seq!["无分支引用(纯历史遗留)"@]
    };
    a + b + c + d
}

pub fn reasons(inv: &Inventory, s: &PathStats, min_size: u64, profile: &Profile) -> (r: Vec<String>)
    ensures
        views(r@) == reasons_spec(*inv, *s, min_size, *profile),
{
    let mut r: Vec<String> = Vec::new();
    let ghost mut g: Seq<Seq<char>> = Seq::empty();
    if s.max >= min_size {
        let mut t = "超阈值(".to_owned();
        let h = human(s.max);
        push_str(&mut t, h.as_str());
        push_str(&mut t, ")");
        r.push(t);
    }
    let ghost a = views(r@);
    if profile.is_archive(s.path.as_str()) {
        r.push("包扩展名".to_owned());
    }
    let ghost ab = views(r@);
    if profile.is_source(s.path.as_str()) {
        r.push("源码".to_owned());
    }
    let ghost abc = views(r@);
    let branches = inv.tip_branches(s.path.as_str());
    let n = branches.len();
    if n > 0 {
        let mut t = String::new();
        push_decimal(&mut t, n as u64);
        push_str(&mut t, " 个分支的最新版仍在用");
        r.push(t);
    } else {
        r.push("无分支引用(纯历史遗留)".to_owned());
    }
    proof {
        let spec = reasons_spec(*inv, *s, min_size, *profile);
        assert(views(r@) =~= spec);
    }
    r
}

pub struct ReviewOpts {
    /// None: review every path
    pub top: Option<usize>,
    pub sort: SortBy,
}

/// The paths that are asked about, in order: those not already chosen and,
/// when orphans are chosen by rule, not orphans.
pub open spec fn asked(items: Seq<PathStats>, already: Set<Seq<char>>, orphans: bool, keep: Set<Seq<char>>) -> Seq<
    Seq<char>,
>
    decreases items.len(),
{
    if items.len() == 0 {
        Seq::empty()
    } else {
        let d = asked(items.drop_last(), already, orphans, keep);
        let p = items.last().path@;
        if already.contains(p) || (orphans && !keep.contains(p)) {
            d
        } else {
            d.push(p)
        }
    }
}

/// The paths answered Yes, until the first Quit.
pub open spec fn picks_from(asked: Seq<Seq<char>>, ans: Seq<Answer>) -> Seq<Seq<char>>
    decreases ans.len(),
{
    if ans.len() == 0 || asked.len() == 0 {
        Seq::empty()
    } else {
        match ans[0] {
            Answer::Quit => Seq::empty(),
            Answer::Yes => seq![asked[0]] + picks_from(asked.drop_first(), ans.drop_first()),
            Answer::No => picks_from(asked.drop_first(), ans.drop_first()),
        }
    }
}

pub open spec fn quit_free(ans: Seq<Answer>) -> bool {
    forall|i: int| 0 <= i < ans.len() ==> ans[i] != Answer::Quit
}

proof fn lemma_picks_step(a: Seq<Seq<char>>, ans: Seq<Answer>, x: Seq<char>, y: Answer)
    requires
        a.len() == ans.len(),
        quit_free(ans),
    ensures
        picks_from(a.push(x), ans.push(y)) == (match y {
            Answer::Yes => picks_from(a, ans).push(x),
            _ => picks_from(a, ans),
        }),
    decreases a.len(),
{
    let ax = a.push(x);
    let ay = ans.push(y);
    if a.len() == 0 {
        assert(picks_from(a, ans) =~= Seq::<Seq<char>>::empty());
        assert(ax.drop_first() =~= Seq::<Seq<char>>::empty());
        assert(ay.drop_first() =~= Seq::<Answer>::empty());
        assert(ax[0] == x);
        assert(ay[0] == y);
        assert(picks_from(ax.drop_first(), ay.drop_first()) =~= Seq::<Seq<char>>::empty());
        match y {
            Answer::Yes => {
                assert(picks_from(ax, ay) == seq![x] + picks_from(ax.drop_first(), ay.drop_first()));
                assert(seq![x] + Seq::<Seq<char>>::empty() =~= Seq::<Seq<char>>::empty().push(x));
            },
            Answer::No => {
                assert(picks_from(ax, ay) == picks_from(ax.drop_first(), ay.drop_first()));
            },
            Answer::Quit => {},
        }
    } else {
        assert(ax.drop_first() =~= a.drop_first().push(x));
        assert(ay.drop_first() =~= ans.drop_first().push(y));
        assert(ax[0] == a[0]);
        assert(ay[0] == ans[0]);
        assert(ans[0] != Answer::Quit);
        assert(quit_free(ans.drop_first())) by {
            assert(forall|k: int| 0 <= k < ans.drop_first().len() ==> ans.drop_first()[k] == ans[k + 1]);
        }
        lemma_picks_step(a.drop_first(), ans.drop_first(), x, y);
        let r1 = picks_from(a.drop_first(), ans.drop_first());
        if ans[0] == Answer::Yes {
            assert(picks_from(ax, ay) == seq![a[0]] + picks_from(ax.drop_first(), ay.drop_first()));
            assert(picks_from(a, ans) == seq![a[0]] + r1);
            assert(seq![a[0]] + r1.push(x) =~= (seq![a[0]] + r1).push(x));
        } else {
            assert(picks_from(ax, ay) == picks_from(ax.drop_first(), ay.drop_first()));
            assert(picks_from(a, ans) == r1);
        }
    }
}

proof fn lemma_picks_prefix(f: Seq<Seq<char>>, ans: Seq<Answer>)
    requires
        ans.len() <= f.len(),
    ensures
        picks_from(f, ans) == picks_from(f.take(ans.len() as int), ans),
    decreases ans.len(),
{
    if ans.len() > 0 {
        assert(f.take(ans.len() as int).drop_first() =~= f.drop_first().take(ans.len() - 1));
        lemma_picks_prefix(f.drop_first(), ans.drop_first());
    }
}

pub open spec fn review_total(n: nat, top: Option<usize>) -> nat {
    match top {
        Some(t) => if t < n {
            t as nat
        } else {
            n
        },
        None => n,
    }
}

/// A possible outcome of reviewing `inv`: `ord` is the statistics in the
/// review order, `ans` the answers given (one per path asked about, or up to
/// a Quit); the picks are the paths answered Yes before the first Quit, each
/// for a manual reason.
pub open spec fn review_outcome(
    inv: Inventory,
    already: Seq<Pick>,
    rules_orphans: bool,
    opts: ReviewOpts,
    ord: Seq<PathStats>,
    ans: Seq<Answer>,
    picks: Seq<Pick>,
) -> bool {
    let total = review_total(inv.stats@.len(), opts.top);
    let a = asked(
        ord.take(total as int),
        already.map_values(|p: Pick| p.path@).to_set(),
        rules_orphans,
        inv.keep_paths@,
    );
    &&& sorted_stats(ord, opts.sort)
    &&& ord.to_multiset() == inv.stats@.to_multiset()
    &&& ans.len() <= a.len()
    &&& (ans.len() == a.len() || (ans.len() > 0 && ans.last() == Answer::Quit))
    &&& picks.map_values(|p: Pick| p.path@) == picks_from(a, ans)
    &&& forall|i: int| 0 <= i < picks.len() ==> (#[trigger] picks[i]).reason == Reason::Manual
}

/// A record of questions with each answer taken out (`Quit` standing for a
/// failed question, which a review that succeeded never has).
pub open spec fn answered(q: Seq<(Seq<char>, bool, Option<Answer>)>) -> Seq<(Seq<char>, bool, Answer)> {
    q.map_values(
        |x: (Seq<char>, bool, Option<Answer>)|
            (
                x.0,
                x.1,
                match x.2 {
                    Some(a) => a,
                    None => Answer::Quit,
                },
            ),
    )
}

/// The answers in a record of questions.
pub open spec fn answers_of(q: Seq<(Seq<char>, bool, Answer)>) -> Seq<Answer> {
    q.map_values(|x: (Seq<char>, bool, Answer)| x.2)
}

/// The question put about a path: clean ("清理") advised when Yes is the
/// default, keep ("保留") otherwise, in colour when the output shows colours.
pub open spec fn advice_question(default_yes: bool, colors: bool) -> Seq<char> {
    "  建议 "@ + if default_yes {
        painted(Color::Red, "清理"@, colors)
    } else {
        painted(Color::Green, "保留"@, colors)
    }
}

/// `default_yes` is right for path `p` of the statistics `ord`: Yes exactly
/// when it qualifies under `min_size` and `profile`.
pub open spec fn default_for(default_yes: bool, p: Seq<char>, ord: Seq<PathStats>, min_size: u64, profile: Profile) -> bool {
    exists|j: int| 0 <= j < ord.len() && #[trigger] ord[j].path@ == p && default_yes == qualifies_spec(ord[j].max, p, min_size, profile)
}

/// The questions `q` were put about the paths `a` (of the statistics
/// `ord`), in order: one each, Yes being the default exactly when the path
/// qualifies under `min_size` and `profile`, the question giving that advice.
pub open spec fn confirms_match(
    q: Seq<(Seq<char>, bool, Answer)>,
    a: Seq<Seq<char>>,
    ord: Seq<PathStats>,
    min_size: u64,
    profile: Profile,
) -> bool {
    &&& q.len() <= a.len()
    &&& forall|k: int| 0 <= k < q.len() ==> default_for(#[trigger] q[k].1, a[k], ord, min_size, profile)
    &&& forall|k: int| 0 <= k < q.len() ==> (#[trigger] q[k]).0 == advice_question(q[k].1, true) || q[k].0 == advice_question(q[k].1, false)
}

/// The review of `inv` put the questions `q`, wrote `text` and picked
/// `picks`: in the review order `ord` (the statistics ordered by
/// `opts.sort`) one question per path asked about (see `asked`) until the
/// end or a Quit, with the default and advice of `confirms_match`; the picks
/// are the paths the answers of `q` give (see `review_outcome`); the text
/// shows the rows up to the end or the Quit (see `rows_shown`, `review_text`).
pub open spec fn review_answered(
    inv: Inventory,
    already: Seq<Pick>,
    rules_orphans: bool,
    min_size: u64,
    profile: Profile,
    opts: ReviewOpts,
    q: Seq<(Seq<char>, bool, Answer)>,
    text: Seq<char>,
    picks: Seq<Pick>,
) -> bool {
    exists|ord: Seq<PathStats>|
        #![trigger review_outcome(inv, already, rules_orphans, opts, ord, answers_of(q), picks)]
        {
            let total = review_total(inv.stats@.len(), opts.top);
            let aset = already.map_values(|p: Pick| p.path@).to_set();
            &&& review_outcome(inv, already, rules_orphans, opts, ord, answers_of(q), picks)
            &&& confirms_match(q, asked(ord.take(total as int), aset, rules_orphans, inv.keep_paths@), ord, min_size, profile)
            &&& exists|n: nat|
                #![trigger rows_shown(n, total, answers_of(q), ord, aset, rules_orphans, inv.keep_paths@)]
                rows_shown(n, total, answers_of(q), ord, aset, rules_orphans, inv.keep_paths@) && review_text(
                    text,
                    ord,
                    n,
                    total,
                    opts.sort,
                )
        }
}

/// Some review order and some answers give `picks`.
pub open spec fn review_possible(
    inv: Inventory,
    already: Seq<Pick>,
    rules_orphans: bool,
    opts: ReviewOpts,
    picks: Seq<Pick>,
) -> bool {
    exists|ord: Seq<PathStats>, ans: Seq<Answer>|
        #![trigger review_outcome(inv, already, rules_orphans, opts, ord, ans, picks)]
        review_outcome(inv, already, rules_orphans, opts, ord, ans, picks)
}

/// The paths answered Yes are among those asked about.
proof fn lemma_picks_asked(a: Seq<Seq<char>>, ans: Seq<Answer>)
    ensures
        forall|i: int| 0 <= i < picks_from(a, ans).len() ==> a.contains(#[trigger] picks_from(a, ans)[i]),
    decreases ans.len(),
{
    if ans.len() > 0 && a.len() > 0 {
        lemma_picks_asked(a.drop_first(), ans.drop_first());
        let r = picks_from(a.drop_first(), ans.drop_first());
        assert forall|i: int| 0 <= i < picks_from(a, ans).len() implies a.contains(#[trigger] picks_from(a, ans)[i]) by {
            match ans[0] {
                Answer::Yes => {
                    if i == 0 {
                        assert(picks_from(a, ans)[0] == a[0]);
                    } else {
                        assert(picks_from(a, ans)[i] == r[i - 1]);
                        let k = choose|k: int| 0 <= k < a.drop_first().len() && a.drop_first()[k] == r[i - 1];
                        assert(a[k + 1] == r[i - 1]);
                    }
                },
                Answer::No => {
                    let k = choose|k: int| 0 <= k < a.drop_first().len() && a.drop_first()[k] == r[i];
                    assert(a[k + 1] == r[i]);
                },
                Answer::Quit => {},
            }
        }
    }
}

/// Only paths that were asked about end up in `asked`: none the rules
/// already chose and, when orphans are chosen by rule, no orphan.
proof fn lemma_asked_fresh(items: Seq<PathStats>, already: Set<Seq<char>>, orphans: bool, keep: Set<Seq<char>>)
    ensures
        forall|i: int|
            0 <= i < asked(items, already, orphans, keep).len() ==> !already.contains(
                #[trigger] asked(items, already, orphans, keep)[i],
            ) && (orphans ==> keep.contains(asked(items, already, orphans, keep)[i])),
    decreases items.len(),
{
    if items.len() > 0 {
        lemma_asked_fresh(items.drop_last(), already, orphans, keep);
        let d = asked(items.drop_last(), already, orphans, keep);
        let a = asked(items, already, orphans, keep);
        assert forall|i: int| 0 <= i < a.len() implies !already.contains(#[trigger] a[i]) && (orphans
            ==> keep.contains(a[i])) by {
            if i < d.len() {
                assert(a[i] == d[i]);
            }
        }
    }
}

/// A review never picks a path the rules already chose nor, when orphans
/// are chosen by rule, an orphan.
pub proof fn lemma_review_picks_fresh(
    inv: Inventory,
    already: Seq<Pick>,
    rules_orphans: bool,
    opts: ReviewOpts,
    picks: Seq<Pick>,
)
    requires
        review_possible(inv, already, rules_orphans, opts, picks),
    ensures
        forall|i: int|
            0 <= i < picks.len() ==> !already.map_values(|p: Pick| p.path@).contains(#[trigger] picks[i].path@) && (
            rules_orphans ==> inv.keep_paths@.contains(picks[i].path@)),
{
    let (ord, ans) = choose|ord: Seq<PathStats>, ans: Seq<Answer>|
        #![trigger review_outcome(inv, already, rules_orphans, opts, ord, ans, picks)]
        review_outcome(inv, already, rules_orphans, opts, ord, ans, picks);
    let total = review_total(inv.stats@.len(), opts.top);
    let aset = already.map_values(|p: Pick| p.path@).to_set();
    let a = asked(ord.take(total as int), aset, rules_orphans, inv.keep_paths@);
    lemma_picks_asked(a, ans);
    lemma_asked_fresh(ord.take(total as int), aset, rules_orphans, inv.keep_paths@);
    assert forall|i: int| 0 <= i < picks.len() implies !already.map_values(|p: Pick| p.path@).contains(
        #[trigger] picks[i].path@,
    ) && (rules_orphans ==> inv.keep_paths@.contains(picks[i].path@)) by {
        let pp = picks.map_values(|p: Pick| p.path@);
        assert(pp[i] == picks[i].path@);
        assert(a.contains(pp[i]));
        let k = choose|k: int| 0 <= k < a.len() && a[k] == pp[i];
        assert(!aset.contains(a[k]));
    }
}

/// The name of an order, as the review's header gives it.
pub open spec fn order_name(by: SortBy) -> Seq<char> {
    match by {
        SortBy::Max => "按单版本最大"@,
        SortBy::Cum => "按累计体积"@,
    }
}

/// The header of a review of `total` rows ordered by `by`, then an empty line.
pub open spec fn review_header(total: nat, by: SortBy, colors: bool) -> Seq<char> {
    painted(
        Color::Yellow,
        "[选路] 逐个审阅前 "@ + decimal(total) + " 项("@ + order_name(by) + ")  Y=保留各分支最新版/删历史旧版  n=不动  q=结束"@,
        colors,
    ) + "\n"@ + "\n"@
}

/// The label line of row `k` (counted from 0) of `total`, about `path`.
pub open spec fn row_label(k: nat, total: nat, path: Seq<char>, colors: bool) -> Seq<char> {
    painted(Color::Cyan, "["@ + decimal(k + 1) + "/"@ + decimal(total) + "]"@, colors) + " "@ + path + "\n"@
}

/// `block` is the text shown for row `k` of `total` about `path`: it begins
/// with the row's label line.
pub open spec fn shows_row(block: Seq<char>, k: nat, total: nat, path: Seq<char>) -> bool {
    has_prefix(block, row_label(k, total, path, true)) || has_prefix(block, row_label(k, total, path, false))
}

/// `text` is what a review of `total` rows ordered by `by` wrote when it
/// showed the first `n` rows of `ord`: the header, then one block per row in
/// order, each beginning with the row's label line.
pub open spec fn review_text(text: Seq<char>, ord: Seq<PathStats>, n: nat, total: nat, by: SortBy) -> bool {
    exists|colors: bool, blocks: Seq<Seq<char>>|
        #![trigger review_header(total, by, colors), blocks.flatten_alt()]
        text == review_header(total, by, colors) + blocks.flatten_alt() && blocks.len() == n && forall|k: int|
            0 <= k < n ==> shows_row(#[trigger] blocks[k], k as nat, total, ord[k].path@)
}

/// How many of the `total` rows of `ord` a review shows when the answers
/// were `ans`: all of them, or, when the answers end with a Quit, those up to
/// the row answered so.
pub open spec fn rows_shown(
    n: nat,
    total: nat,
    ans: Seq<Answer>,
    ord: Seq<PathStats>,
    already: Set<Seq<char>>,
    orphans: bool,
    keep: Set<Seq<char>>,
) -> bool {
    if ans.len() > 0 && ans.last() == Answer::Quit {
        &&& 0 < n <= total
        &&& asked(ord.take(n as int), already, orphans, keep).len() == ans.len()
        &&& asked(ord.take(n - 1), already, orphans, keep).len() < ans.len()
    } else {
        n == total
    }
}

/// One more row block after the header and the blocks before it: the text
/// written since `ws`, which begins with the row's label line.
proof fn lemma_row_block(
    w0: Seq<char>,
    hdr: Seq<char>,
    blocks: Seq<Seq<char>>,
    ws: Seq<char>,
    wl: Seq<char>,
    now: Seq<char>,
    label: Seq<char>,
)
    requires
        ws == w0 + hdr + blocks.flatten_alt(),
        wl == ws + label,
        grows(wl, now),
    ensures
        now == w0 + hdr + blocks.push(now.skip(ws.len() as int)).flatten_alt(),
        has_prefix(now.skip(ws.len() as int), label),
{
    let b = now.skip(ws.len() as int);
    assert(now.take(ws.len() as int) =~= now.take(wl.len() as int).take(ws.len() as int));
    assert(now.take(ws.len() as int) =~= ws);
    assert(now =~= ws + b);
    assert(blocks.push(b).drop_last() =~= blocks);
    assert(blocks.push(b).flatten_alt() == blocks.flatten_alt() + b);
    assert(w0 + hdr + blocks.push(b).flatten_alt() =~= ws + b);
    assert(b.take(label.len() as int) =~= now.take(wl.len() as int).skip(ws.len() as int));
    assert(wl.skip(ws.len() as int) =~= label);
    assert(b.len() >= label.len());
}

fn put_line<S: Sink>(out: &mut Shown<S>, text: &str) -> (r: Result<(), ToolError>)
    ensures
        r is Ok ==> final(out).written() == old(out).written() + text@ + "\n"@,
        r is Ok ==> final(out).failures() == old(out).failures(),
        r is Err ==> final(out).failures() > old(out).failures(),
        old(out).infallible() ==> r is Ok && final(out).infallible(),
        r is Ok ==> forall|p: Seq<char>| #[trigger] grows(p, old(out).written()) ==> grows(p, final(out).written()),
{
    let ghost w = out.written();
    out.put(text)?;
    let r = out.put("\n");
    proof {
        if r is Ok {
            assert forall|p: Seq<char>| #[trigger] grows(p, w) implies grows(p, out.written()) by {
                lemma_grows_append(p, w, text@ + "\n"@);
                assert(w + text@ + "\n"@ =~= w + (text@ + "\n"@));
            }
        }
    }
    r
}

/// What precedes the last '/' of `s`; `None` without a '/'.
pub open spec fn dir_part(s: Seq<char>) -> Option<Seq<char>>
    decreases s.len(),
{
    if s.len() == 0 {
        None
    } else if s.last() == '/' {
        Some(s.drop_last())
    } else {
        dir_part(s.drop_last())
    }
}

/// `path` up to its last '/', or a note that it is at the root.
fn dir_of(path: &str) -> (r: String)
    ensures
        r@ == match dir_part(path@) {
            Some(d) => d,
            None => "(仓库根目录)"@,
        },
{
    let cs = chars_of(path);
    let mut k: usize = cs.len();
    assert(cs@.take(k as int) =~= cs@);
    while k > 0 && cs[k - 1] != '/'
        invariant
            k <= cs.len(),
            cs@ == path@,
            dir_part(cs@.take(k as int)) == dir_part(path@),
        decreases k,
    {
        assert(cs@.take(k as int).drop_last() =~= cs@.take(k - 1));
        k = k - 1;
    }
    if k == 0 {
        assert(cs@.take(0) =~= Seq::<char>::empty());
        "(仓库根目录)".to_owned()
    } else {
        assert(cs@.take(k as int).drop_last() =~= cs@.take(k - 1));
        let head = &cs.as_slice()[0..k - 1];
        assert(head@ =~= cs@.take(k - 1));
        string_of(head)
    }
}

fn painted_line<S: Sink>(out: &mut Shown<S>, c: Color, text: &str, prefix: &str, suffix: &str) -> (r: Result<(), ToolError>)
    ensures
        r is Ok ==> final(out).failures() == old(out).failures(),
        r is Err ==> final(out).failures() > old(out).failures(),
        old(out).infallible() ==> r is Ok && final(out).infallible(),
        r is Ok ==> exists|on: bool| final(out).written() == old(out).written() + (prefix@ + painted(c, text@, on) + suffix@) + "\n"@,
        r is Ok ==> forall|p: Seq<char>| #[trigger] grows(p, old(out).written()) ==> grows(p, final(out).written()),
{
    let on = out.colors();
    let mut line = prefix.to_owned();
    let p = paint(c, text, on);
    push_str(&mut line, p.as_str());
    push_str(&mut line, suffix);
    put_line(out, line.as_str())
}

/// Walks the N largest paths one by one and asks about each; paths the
/// rules already chose, and orphans when orphans are chosen by rule, are
/// shown without a question.
#[verifier::spinoff_prover]
#[verifier::rlimit(80)]
pub fn review<P: Prompt, S: Sink>(
    inv: &Inventory,
    already: &[Pick],
    rules: &RuleSet,
    opts: &ReviewOpts,
    prompt: &mut Asked<P>,
    out: &mut Shown<S>,
) -> (r: Result<Vec<Pick>, ToolError>)
    ensures
        final(prompt).confirmed().len() >= old(prompt).confirmed().len(),
        final(prompt).confirmed().take(old(prompt).confirmed().len() as int) == old(prompt).confirmed(),
        old(prompt).script() matches Some(sc) ==> follows_script(asked_since(old(prompt).confirmed(), final(prompt).confirmed()), sc),
        r is Err ==> final(out).failures() > old(out).failures() || (final(prompt).confirmed().len() > old(prompt).confirmed().len()
            && final(prompt).confirmed().last().2 is None),
        old(prompt).script() is Some && old(out).infallible() ==> r is Ok,
        r is Ok ==> final(out).failures() == old(out).failures() && all_answered(asked_since(old(prompt).confirmed(), final(prompt).confirmed())),
        r matches Ok(picks) ==> review_answered(
            *inv,
            already@,
            rules.orphans,
            rules.min_size,
            *rules.profile,
            *opts,
            answered(final(prompt).confirmed().skip(old(prompt).confirmed().len() as int)),
            final(out).written().skip(old(out).written().len() as int),
            picks@,
        ),
        r matches Ok(picks) ==> grows(old(out).written(), final(out).written()),
        r matches Ok(picks) ==> review_possible(*inv, already@, rules.orphans, *opts, picks@),
{
    let ghost c0 = prompt.confirmed();
    let ghost s0 = prompt.script();
    let ghost w0 = out.written();
    let ghost f0 = out.failures();
    let ghost inf0 = out.infallible();
    let mut picked = StrSet::new();
    let mut j: usize = 0;
    while j < already.len()
        invariant
            j <= already.len(),
            picked@ == already@.take(j as int).map_values(|p: Pick| p.path@).to_set(),
        decreases already.len() - j,
    {
        let ghost before = already@.take(j as int).map_values(|p: Pick| p.path@);
        picked.insert(already[j].path.clone());
        proof {
            let after = already@.take(j + 1).map_values(|p: Pick| p.path@);
            assert(after =~= before.push(already@[j as int].path@));
            assert(after.to_set() =~= before.to_set().insert(already@[j as int].path@)) by {
                assert forall|z: Seq<char>| after.contains(z) <==> before.contains(z) || z
                    == already@[j as int].path@ by {
                    if after.contains(z) {
                        let k = choose|k: int| 0 <= k < after.len() && after[k] == z;
                        if k < before.len() {
                            assert(before[k] == z);
                        }
                    }
                    if before.contains(z) {
                        let k = choose|k: int| 0 <= k < before.len() && before[k] == z;
                        assert(after[k] == z);
                    }
                    if z == already@[j as int].path@ {
                        assert(after[j as int] == z);
                    }
                }
            }
        }
        j = j + 1;
    }
    assert(already@.take(j as int) =~= already@);
    let ghost already_set = already@.map_values(|p: Pick| p.path@).to_set();
    let ord = sort_stats(&inv.stats, opts.sort);
    let n = ord.len();
    let total: usize = match opts.top {
        Some(t) => if t < n {
            t
        } else {
            n
        },
        None => n,
    };
    proof {
        assert(ord@.to_multiset().len() == inv.stats@.to_multiset().len());
    }
    let ord_text = match opts.sort {
        SortBy::Max => "按单版本最大",
        SortBy::Cum => "按累计体积",
    };
    let mut head = "[选路] 逐个审阅前 ".to_owned();
    push_decimal(&mut head, total as u64);
    push_str(&mut head, " 项(");
    push_str(&mut head, ord_text);
    push_str(&mut head, ")  Y=保留各分支最新版/删历史旧版  n=不动  q=结束");
    painted_line(out, Color::Yellow, head.as_str(), "", "")?;
    let ghost w1 = out.written();
    put_line(out, "")?;
    let ghost hcol = choose|on: bool| w1 == w0 + (""@ + painted(Color::Yellow, head@, on) + ""@) + "\n"@;
    let ghost hdr = review_header(total as nat, opts.sort, hcol);
    let ghost mut blocks: Seq<Seq<char>> = Seq::empty();
    proof {
        reveal_strlit("");
        assert(order_name(opts.sort) == ord_text@);
        assert(head@ =~= "[选路] 逐个审阅前 "@ + decimal(total as nat) + " 项("@ + order_name(opts.sort)
            + ")  Y=保留各分支最新版/删历史旧版  n=不动  q=结束"@);
        assert(blocks.flatten_alt() =~= Seq::<char>::empty());
        assert(out.written() =~= w0 + hdr + blocks.flatten_alt());
    }
    let mut picks: Vec<Pick> = Vec::new();
    let ghost mut ans: Seq<Answer> = Seq::empty();
    proof {
        assert(prompt.confirmed().take(c0.len() as int) =~= c0);
        assert(prompt.confirmed().skip(c0.len() as int) =~= Seq::<(Seq<char>, bool, Option<Answer>)>::empty());
        assert(answered(prompt.confirmed().skip(c0.len() as int)) =~= Seq::<(Seq<char>, bool, Answer)>::empty());
        assert(answers_of(answered(prompt.confirmed().skip(c0.len() as int))) =~= Seq::<Answer>::empty());
        if s0 is Some {
            assert(script_after(s0->0, 0) =~= s0->0);
        }
    }
    let ghost full = asked(ord@.take(total as int), already_set, rules.orphans, inv.keep_paths@);
    let mut i: usize = 0;
    while i < total
        invariant
            i <= total <= ord.len(),
            total == review_total(inv.stats@.len(), opts.top),
            sorted_stats(ord@, opts.sort),
            ord@.to_multiset() == inv.stats@.to_multiset(),
            already_set == already@.map_values(|p: Pick| p.path@).to_set(),
            picked@ == already_set,
            full == asked(ord@.take(total as int), already_set, rules.orphans, inv.keep_paths@),
            ans.len() == asked(ord@.take(i as int), already_set, rules.orphans, inv.keep_paths@).len(),
            quit_free(ans),
            picks@.map_values(|p: Pick| p.path@) == picks_from(
                asked(ord@.take(i as int), already_set, rules.orphans, inv.keep_paths@),
                ans,
            ),
            forall|k: int| 0 <= k < picks.len() ==> (#[trigger] picks@[k]).reason == Reason::Manual,
            full.take(ans.len() as int) == asked(ord@.take(i as int), already_set, rules.orphans, inv.keep_paths@),
            ans.len() <= full.len(),
            c0 == old(prompt).confirmed(),
            prompt.confirmed().len() >= c0.len(),
            prompt.confirmed().take(c0.len() as int) == c0,
            answers_of(answered(prompt.confirmed().skip(c0.len() as int))) == ans,
            confirms_match(answered(prompt.confirmed().skip(c0.len() as int)), full, ord@, rules.min_size, *rules.profile),
            all_answered(asked_since(c0, prompt.confirmed())),
            s0 == old(prompt).script(),
            s0 matches Some(sc) ==> prompt.script() == Some(script_after(sc, ans.len() as int)) && follows_script(
                asked_since(c0, prompt.confirmed()),
                sc,
            ),
            f0 == old(out).failures(),
            out.failures() == f0,
            inf0 == old(out).infallible(),
            inf0 ==> out.infallible(),
            w0 == old(out).written(),
            hdr == review_header(total as nat, opts.sort, hcol),
            out.written() == w0 + hdr + blocks.flatten_alt(),
            blocks.len() == i,
            forall|k: int| 0 <= k < i ==> shows_row(#[trigger] blocks[k], k as nat, total as nat, ord@[k].path@),
        decreases total - i,
    {
        let s = &ord[i];
        let ghost pre = asked(ord@.take(i as int), already_set, rules.orphans, inv.keep_paths@);
        let ghost post = asked(ord@.take(i + 1), already_set, rules.orphans, inv.keep_paths@);
        proof {
            assert(ord@.take(i + 1).drop_last() =~= ord@.take(i as int));
            assert(ord@.take(i + 1).last() == *s);
            lemma_asked_prefix(ord@.take(total as int), i as int, already_set, rules.orphans, inv.keep_paths@);
            lemma_asked_prefix(ord@.take(total as int), i + 1, already_set, rules.orphans, inv.keep_paths@);
            assert(ord@.take(total as int).take(i as int) =~= ord@.take(i as int));
            assert(ord@.take(total as int).take(i + 1) =~= ord@.take(i + 1));
        }
        let mut label = "[".to_owned();
        push_decimal(&mut label, (i + 1) as u64);
        push_str(&mut label, "/");
        push_decimal(&mut label, total as u64);
        push_str(&mut label, "]");
        let mut tail = " ".to_owned();
        push_str(&mut tail, s.path.as_str());
        let ghost ws = out.written();
        painted_line(out, Color::Cyan, label.as_str(), "", tail.as_str())?;
        let ghost wl = out.written();
        let ghost lcol = choose|on: bool| wl == ws + (""@ + painted(Color::Cyan, label@, on) + tail@) + "\n"@;
        let ghost lline = row_label(i as nat, total as nat, s.path@, lcol);
        proof {
            reveal_strlit("");
            assert(label@ =~= "["@ + decimal((i + 1) as nat) + "/"@ + decimal(total as nat) + "]"@);
            assert(tail@ =~= " "@ + s.path@);
            assert(wl =~= ws + lline);
            assert(wl.take(wl.len() as int) =~= wl);
            assert(grows(wl, wl));
        }
        if picked.contains(s.path.as_str()) {
            painted_line(out, Color::Red, "已选中(规则命中)", "  -> ", "\n")?;
            assert(post == pre);
        } else if rules.orphans && inv.is_orphan(s.path.as_str()) {
            painted_line(out, Color::Red, "孤儿(无分支引用), 已自动标记清理", "  -> ", "\n")?;
            assert(post == pre);
        } else {
            assert(post == pre.push(s.path@));
            let branches = inv.tip_branches(s.path.as_str());
            let mut dline = "  目录: ".to_owned();
            let d = dir_of(s.path.as_str());
            push_str(&mut dline, d.as_str());
            put_line(out, dline.as_str())?;
            let mut sline = "  单版本最大: ".to_owned();
            let on = out.colors();
            let hm = human(s.max);
            let pm = paint(Color::Yellow, hm.as_str(), on);
            push_str(&mut sline, pm.as_str());
            push_str(&mut sline, "  累计 ");
            let hc = human(s.cum);
            push_str(&mut sline, hc.as_str());
            push_str(&mut sline, " (");
            push_decimal(&mut sline, s.versions as u64);
            push_str(&mut sline, " 个历史版本)");
            put_line(out, sline.as_str())?;
            if branches.len() == 0 {
                painted_line(out, Color::Red, "无", "  当前还在用: ", "  (没有任何分支引用, 全是历史旧版)")?;
            } else {
                let joined = join_text(&branches, " ");
                painted_line(out, Color::Green, joined.as_str(), "  当前还在用: ", "  (这些分支的最新版会原样保留)")?;
            }
            let rs = reasons(inv, s, rules.min_size, rules.profile);
            let mut rline = "  理由: ".to_owned();
            let rj = join_text(&rs, ", ");
            push_str(&mut rline, rj.as_str());
            put_line(out, rline.as_str())?;
            out.flush()?;
            let rec = qualifies(s.max, s.path.as_str(), rules.min_size, rules.profile);
            let on = out.colors();
            let mut q = "  建议 ".to_owned();
            let advice = if rec {
                paint(Color::Red, "清理", on)
            } else {
                paint(Color::Green, "保留", on)
            };
            push_str(&mut q, advice.as_str());
            let ghost cb = prompt.confirmed();
            proof {
                assert(q@ == advice_question(rec, on));
            }
            let a = prompt.confirm(q.as_str(), rec)?;
            proof {
                lemma_picks_step(pre, ans, s.path@, a);
                let rb = cb.skip(c0.len() as int);
                let ra = prompt.confirmed().skip(c0.len() as int);
                assert(ra =~= rb.push((q@, rec, Some(a))));
                let qb = answered(rb);
                let qa = answered(ra);
                assert(qa =~= qb.push((q@, rec, a)));
                assert(prompt.confirmed().take(c0.len() as int) =~= cb.take(c0.len() as int));
                assert(asked_since(c0, prompt.confirmed()) == ra);
                assert(asked_since(c0, cb) == rb);
                assert forall|k: int| 0 <= k < ra.len() implies (#[trigger] ra[k]).2 is Some by {
                    if k < rb.len() {
                        assert(ra[k] == rb[k]);
                    }
                }
                if s0 is Some {
                    let sc = s0->0;
                    lemma_script_step(sc, ans.len() as int, rec);
                    assert forall|k: int| 0 <= k < ra.len() implies (#[trigger] ra[k]).2 == Some(scripted_at(sc, k, ra[k].1)) by {
                        if k < rb.len() {
                            assert(ra[k] == rb[k]);
                        }
                    }
                }
                assert(answers_of(qa) =~= ans.push(a));
                assert(full[ans.len() as int] == s.path@) by {
                    assert(full.take(post.len() as int) == post) by {
                        lemma_asked_prefix(ord@.take(total as int), i + 1, already_set, rules.orphans, inv.keep_paths@);
                        assert(ord@.take(total as int).take(i + 1) =~= ord@.take(i + 1));
                    }
                    assert(post[ans.len() as int] == s.path@);
                }
                assert(ans.len() < full.len()) by {
                    lemma_asked_prefix(ord@.take(total as int), i + 1, already_set, rules.orphans, inv.keep_paths@);
                    assert(ord@.take(total as int).take(i + 1) =~= ord@.take(i + 1));
                }
                assert forall|k: int| 0 <= k < qa.len() implies default_for(
                    #[trigger] qa[k].1,
                    full[k],
                    ord@,
                    rules.min_size,
                    *rules.profile,
                ) by {
                    if k < qb.len() {
                        assert(qa[k] == qb[k]);
                        assert(default_for(qb[k].1, full[k], ord@, rules.min_size, *rules.profile));
                    } else {
                        assert(qa[k] == (q@, rec, a));
                        assert(ord@[i as int].path@ == full[k]);
                    }
                }
                assert forall|k: int| 0 <= k < qa.len() implies (#[trigger] qa[k]).0 == advice_question(qa[k].1, true) || qa[k].0
                    == advice_question(qa[k].1, false) by {
                    if k < qb.len() {
                        assert(qa[k] == qb[k]);
                    } else {
                        assert(qa[k] == (q@, rec, a));
                    }
                }
                assert(qa.len() <= full.len());
                assert(confirms_match(qa, full, ord@, rules.min_size, *rules.profile));
            }
            match a {
                Answer::Yes => {
                    painted_line(out, Color::Red, "标记清理", "  -> ", "\n")?;
                    let ghost before = picks@;
                    picks.push(Pick { path: s.path.clone(), reason: Reason::Manual });
                    proof {
                        assert(picks@.map_values(|p: Pick| p.path@) =~= before.map_values(|p: Pick| p.path@).push(
                            s.path@,
                        ));
                        ans = ans.push(a);
                    }
                },
                Answer::No => {
                    painted_line(out, Color::Green, "保留", "  -> ", "\n")?;
                    proof {
                        ans = ans.push(a);
                    }
                },
                Answer::Quit => {
                    put_line(out, "  -> 结束")?;
                    proof {
                        lemma_row_block(w0, hdr, blocks, ws, wl, out.written(), lline);
                        let nb = blocks.push(out.written().skip(ws.len() as int));
                        let text = out.written().skip(w0.len() as int);
                        assert(text =~= hdr + nb.flatten_alt());
                        assert(out.written().take(w0.len() as int) =~= w0);
                        assert forall|k: int| 0 <= k < i + 1 implies shows_row(
                            #[trigger] nb[k],
                            k as nat,
                            total as nat,
                            ord@[k].path@,
                        ) by {
                            if k < i {
                                assert(nb[k] == blocks[k]);
                            }
                        }
                        assert(review_text(text, ord@, (i + 1) as nat, total as nat, opts.sort));
                        let q = ans.push(Answer::Quit);
                        lemma_picks_prefix(full, q);
                        assert(full.take(q.len() as int) =~= post);
                        assert(picks_from(full, q) == picks_from(pre, ans));
                        assert(sorted_stats(ord@, opts.sort));
                        assert(ord@.to_multiset() == inv.stats@.to_multiset());
                        assert(q.len() <= full.len());
                        assert(picks@.map_values(|p: Pick| p.path@) == picks_from(full, q));
                        assert(review_outcome(*inv, already@, rules.orphans, *opts, ord@, q, picks@));
                        assert(review_possible(*inv, already@, rules.orphans, *opts, picks@));
                        assert(answers_of(answered(prompt.confirmed().skip(c0.len() as int))) == q);
                        assert(rows_shown(
                            (i + 1) as nat,
                            total as nat,
                            q,
                            ord@,
                            already_set,
                            rules.orphans,
                            inv.keep_paths@,
                        ));
                        assert(review_answered(
                            *inv,
                            already@,
                            rules.orphans,
                            rules.min_size,
                            *rules.profile,
                            *opts,
                            answered(prompt.confirmed().skip(c0.len() as int)),
                            text,
                            picks@,
                        ));
                    }
                    return Ok(picks);
                },
            }
            proof {
                assert(ans.len() == post.len());
                assert(quit_free(ans)) by {
                    assert(forall|k: int| 0 <= k < ans.len() - 1 ==> ans[k] == ans.drop_last()[k]);
                }
            }
        }
        proof {
            lemma_row_block(w0, hdr, blocks, ws, wl, out.written(), lline);
            let nb = blocks.push(out.written().skip(ws.len() as int));
            assert forall|k: int| 0 <= k < i + 1 implies shows_row(#[trigger] nb[k], k as nat, total as nat, ord@[k].path@) by {
                if k < i {
                    assert(nb[k] == blocks[k]);
                }
            }
            blocks = nb;
        }
        i = i + 1;
    }
    proof {
        assert(ord@.take(i as int) =~= ord@.take(total as int));
        lemma_picks_prefix(full, ans);
        assert(full.take(ans.len() as int) =~= full);
        assert(review_outcome(*inv, already@, rules.orphans, *opts, ord@, ans, picks@));
        assert(review_possible(*inv, already@, rules.orphans, *opts, picks@));
        let text = out.written().skip(w0.len() as int);
        assert(text =~= hdr + blocks.flatten_alt());
        assert(out.written().take(w0.len() as int) =~= w0);
        assert(review_text(text, ord@, total as nat, total as nat, opts.sort));
        assert(rows_shown(total as nat, total as nat, ans, ord@, already_set, rules.orphans, inv.keep_paths@));
        assert(review_answered(
            *inv,
            already@,
            rules.orphans,
            rules.min_size,
            *rules.profile,
            *opts,
            answered(prompt.confirmed().skip(c0.len() as int)),
            text,
            picks@,
        ));
    }
    Ok(picks)
}

proof fn lemma_asked_prefix(items: Seq<PathStats>, k: int, already: Set<Seq<char>>, orphans: bool, keep: Set<Seq<char>>)
    requires
        0 <= k <= items.len(),
    ensures
        asked(items, already, orphans, keep).take(asked(items.take(k), already, orphans, keep).len() as int)
            == asked(items.take(k), already, orphans, keep),
        asked(items.take(k), already, orphans, keep).len() <= asked(items, already, orphans, keep).len(),
    decreases items.len(),
{
    if k < items.len() {
        assert(items.drop_last().take(k) =~= items.take(k));
        lemma_asked_prefix(items.drop_last(), k, already, orphans, keep);
        let a = asked(items, already, orphans, keep);
        let b = asked(items.drop_last(), already, orphans, keep);
        let c = asked(items.take(k), already, orphans, keep);
        if a.len() != b.len() {
            assert(a.take(c.len() as int) =~= b.take(c.len() as int));
        }
    } else {
        assert(items.take(k) =~= items);
        let a = asked(items, already, orphans, keep);
        assert(a.take(a.len() as int) =~= a);
    }
}

} // verus!
