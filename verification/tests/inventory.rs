use std::cell::RefCell;

use pomona::error::ToolError;
use pomona::git::{Git, GitLog};
use pomona::inventory::{build, expand_globs, fits_history, record_tree, sorted_unique, BuildError, KeepRefs};
use pomona::model::{Inventory, ObjectRec, Oid};
use pomona::stats::{aggregate, paths_fit, SortBy};

struct FakeGit {
    answers: Vec<(String, Vec<u8>)>,
    calls: RefCell<Vec<String>>,
}

impl FakeGit {
    fn new(answers: Vec<(&str, &[u8])>) -> GitLog<FakeGit> {
        GitLog::new(FakeGit {
            answers: answers.into_iter().map(|(k, v)| (k.to_string(), v.to_vec())).collect(),
            calls: RefCell::new(Vec::new()),
        })
    }
}

impl Git for FakeGit {
    fn run(&self, _repo: Option<&str>, args: &[&str], _stdin: Option<&[u8]>) -> Result<Vec<u8>, ToolError> {
        let key = args.join(" ");
        self.calls.borrow_mut().push(key.clone());
        for (k, v) in &self.answers {
            if *k == key {
                return Ok(v.clone());
            }
        }
        Err(ToolError::new(format!("unexpected: git {key}")))
    }

    fn run_inherit(&self, _repo: Option<&str>, _args: &[&str]) -> Result<(), ToolError> {
        Ok(())
    }
}

fn dev_clone() -> GitLog<FakeGit> {
    FakeGit::new(vec![
        (
            "for-each-ref --format=%(refname) refs/remotes/origin/",
            b"refs/remotes/origin/HEAD\nrefs/remotes/origin/release-1\nrefs/remotes/origin/main\n",
        ),
        ("rev-list --objects --all", b"ignored\n"),
        (
            "cat-file --batch-check=%(objecttype) %(objectname) %(objectsize) %(rest)",
            b"blob g1 13 a.go\nblob p1 300 app.tar.gz\nblob p2 400 app.tar.gz\ntree t1 40 \n",
        ),
        ("ls-tree -r -z refs/remotes/origin/main", b"100644 blob g1\ta.go\x00"),
        ("ls-tree -r -z refs/remotes/origin/release-1", b"100644 blob g1\ta.go\x00100644 blob p2\tapp.tar.gz\x00"),
        ("ls-tree -r -z refs/tags/v1", b"100644 blob p1\tapp.tar.gz\x00"),
    ])
}

#[test]
fn inventory_from_listed_history() {
    let mut g = dev_clone();
    let branch_refs = expand_globs(&mut g, "/dev", &["refs/remotes/origin/".to_string()]).unwrap();
    assert_eq!(branch_refs, vec!["refs/remotes/origin/main", "refs/remotes/origin/release-1"]);
    let keep = KeepRefs {
        branch_refs,
        branch_prefix: "refs/remotes/origin/".into(),
        extra_refs: vec![],
    };
    let inv = build(&mut g, "/dev", &keep, SortBy::Max).unwrap();
    let app = inv.stats.iter().find(|s| s.path == "app.tar.gz").unwrap();
    assert_eq!((app.versions, app.max, app.cum), (2, 400, 700));
    assert_eq!(inv.tip_branches("app.tar.gz"), vec!["release-1"]);
    assert_eq!(inv.tip_branches("a.go"), vec!["main", "release-1"]);
    assert_eq!(inv.keep_blobs.len(), 2);
    assert!(!inv.is_orphan("app.tar.gz"));
    assert_eq!(inv.stats[0].path, "app.tar.gz");
}

#[test]
fn extra_refs_only_add_kept_blobs() {
    let mut g = dev_clone();
    let keep = KeepRefs {
        branch_refs: vec!["refs/remotes/origin/main".into()],
        branch_prefix: "refs/remotes/origin/".into(),
        extra_refs: vec!["refs/tags/v1".into()],
    };
    let inv = build(&mut g, "/dev", &keep, SortBy::Cum).unwrap();
    assert!(inv.keep_blobs.contains(&Oid::new("p1")));
    assert!(!inv.keep_blobs.contains(&Oid::new("p2")));
    assert!(inv.tip_branches("app.tar.gz").is_empty());
    assert!(!inv.is_orphan("app.tar.gz"));
}

#[test]
fn no_branch_refs_is_refused() {
    let mut g = dev_clone();
    let keep = KeepRefs { branch_refs: vec![], branch_prefix: "refs/heads/".into(), extra_refs: vec![] };
    assert!(matches!(build(&mut g, "/dev", &keep, SortBy::Max), Err(BuildError::NoBranches)));
    assert!(g.git.calls.borrow().is_empty());
}

#[test]
fn expand_globs_sorts_and_dedups() {
    let mut g = FakeGit::new(vec![
        ("for-each-ref --format=%(refname) refs/tags/*", b"refs/tags/v2\nrefs/tags/v1\n"),
        ("for-each-ref --format=%(refname) refs/tags/v1", b"refs/tags/v1\n"),
    ]);
    let v = expand_globs(&mut g, "/r", &["refs/tags/*".to_string(), "refs/tags/v1".to_string()]).unwrap();
    assert_eq!(v, vec!["refs/tags/v1", "refs/tags/v2"]);
    assert!(expand_globs(&mut g, "/r", &[]).unwrap().is_empty());
}

#[test]
fn sorted_unique_orders_bytewise() {
    let v = vec!["b".to_string(), "B".to_string(), "a".to_string(), "b".to_string()];
    assert_eq!(sorted_unique(&v), vec!["B", "a", "b"]);
}

#[test]
fn record_tree_without_branch_keeps_tips() {
    let mut inv = Inventory::from_objects(vec![], SortBy::Max);
    record_tree(&mut inv, None, &[(Oid::new("k"), "x".to_string())]);
    assert!(inv.keep_blobs.contains(&Oid::new("k")));
    assert!(!inv.is_orphan("x"));
    assert!(inv.tip_branches("x").is_empty());
    record_tree(&mut inv, Some("dev"), &[(Oid::new("k"), "x".to_string())]);
    assert_eq!(inv.tip_branches("x"), vec!["dev"]);
}

#[test]
fn history_must_fit_the_counters() {
    let big = vec![
        ObjectRec { oid: Oid::new("1"), size: u64::MAX, path: "a".into() },
        ObjectRec { oid: Oid::new("2"), size: 1, path: "b".into() },
    ];
    assert!(!fits_history(&big));
    assert!(fits_history(&big[..1].to_vec()));
    // Each path on its own fits; the same sizes under one path do not.
    assert!(paths_fit(&big));
    let same = vec![
        ObjectRec { oid: Oid::new("1"), size: u64::MAX, path: "a".into() },
        ObjectRec { oid: Oid::new("2"), size: 1, path: "a".into() },
    ];
    assert!(!paths_fit(&same));
    assert!(aggregate(&same).is_none());
    assert_eq!(aggregate(&big).unwrap().len(), 2);
}

#[test]
fn large_totals_on_separate_paths_still_build() {
    let mut g = FakeGit::new(vec![
        ("rev-list --objects --all", b""),
        (
            "cat-file --batch-check=%(objecttype) %(objectname) %(objectsize) %(rest)",
            b"blob a 18446744073709551615 x\nblob b 1 y\n",
        ),
        ("ls-tree -r -z refs/heads/main", b"100644 blob b\ty\0"),
    ]);
    let keep = KeepRefs { branch_refs: vec!["refs/heads/main".into()], branch_prefix: "refs/heads/".into(), extra_refs: vec![] };
    let inv = build(&mut g, "/r", &keep, SortBy::Max).unwrap();
    assert_eq!(inv.stats.len(), 2);
    assert_eq!(inv.stats[0].path, "x");
    assert_eq!(inv.tip_branches("y"), vec!["main"]);
}

#[test]
fn oversized_history_and_git_failures_are_reported() {
    let mut g = FakeGit::new(vec![
        ("rev-list --objects --all", b""),
        (
            "cat-file --batch-check=%(objecttype) %(objectname) %(objectsize) %(rest)",
            b"blob a 18446744073709551615 x\nblob b 1 x\n",
        ),
    ]);
    let keep = KeepRefs { branch_refs: vec!["refs/heads/main".into()], branch_prefix: "refs/heads/".into(), extra_refs: vec![] };
    assert!(matches!(build(&mut g, "/r", &keep, SortBy::Max), Err(BuildError::Oversized)));
    let mut none = FakeGit::new(vec![]);
    assert!(matches!(build(&mut none, "/r", &keep, SortBy::Max), Err(BuildError::Git(_))));
}

#[test]
fn build_lists_each_kept_ref_once_in_order() {
    let mut g = dev_clone();
    let keep = KeepRefs {
        branch_refs: vec!["refs/remotes/origin/main".into(), "refs/remotes/origin/release-1".into()],
        branch_prefix: "refs/remotes/origin/".into(),
        extra_refs: vec!["refs/tags/v1".into()],
    };
    let inv = build(&mut g, "/dev", &keep, SortBy::Max).unwrap();
    assert_eq!(
        *g.git.calls.borrow(),
        vec![
            "rev-list --objects --all",
            "cat-file --batch-check=%(objecttype) %(objectname) %(objectsize) %(rest)",
            "ls-tree -r -z refs/remotes/origin/main",
            "ls-tree -r -z refs/remotes/origin/release-1",
            "ls-tree -r -z refs/tags/v1",
        ]
    );
    // Each branch holds the paths of its own tree only.
    assert_eq!(inv.tip_branches("a.go"), vec!["main", "release-1"]);
    assert_eq!(inv.tip_branches("app.tar.gz"), vec!["release-1"]);
    assert!(inv.keep_blobs.contains(&Oid::new("p1")));
}

#[test]
fn build_stops_at_the_first_failing_listing() {
    let mut g = dev_clone();
    let keep = KeepRefs {
        branch_refs: vec!["refs/remotes/origin/gone".into(), "refs/remotes/origin/main".into()],
        branch_prefix: "refs/remotes/origin/".into(),
        extra_refs: vec![],
    };
    assert!(matches!(build(&mut g, "/dev", &keep, SortBy::Max), Err(BuildError::Git(_))));
    assert_eq!(g.git.calls.borrow().len(), 3);
    assert_eq!(g.git.calls.borrow()[2], "ls-tree -r -z refs/remotes/origin/gone");
}

#[test]
fn expand_globs_stops_at_the_first_failing_listing() {
    let mut g = FakeGit::new(vec![("for-each-ref --format=%(refname) refs/tags/v1", b"refs/tags/v1\n")]);
    let r = expand_globs(&mut g, "/r", &["refs/nope/*".to_string(), "refs/tags/v1".to_string()]);
    assert!(r.is_err());
    assert_eq!(*g.git.calls.borrow(), vec!["for-each-ref --format=%(refname) refs/nope/*"]);
}
