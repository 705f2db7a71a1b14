use std::cell::RefCell;

use pomona::error::ToolError;
use pomona::git::{Git, GitLog};
use pomona::publish::{
    force_push, hook_env, info_file_name, largest_files, largest_in_listing, push_args, push_next, snapshot_tips, verify,
    InfoError, PushInfo, PushNext, PushStage, VerifyError, PUSH_INFO_VERSION,
};

struct FakeGit {
    answers: Vec<(String, Result<Vec<u8>, String>)>,
    calls: RefCell<Vec<String>>,
}

impl FakeGit {
    fn new(answers: Vec<(&str, Result<&[u8], &str>)>) -> GitLog<FakeGit> {
        GitLog::new(FakeGit {
            answers: answers
                .into_iter()
                .map(|(k, v)| (k.to_string(), v.map(|b| b.to_vec()).map_err(|e| e.to_string())))
                .collect(),
            calls: RefCell::new(Vec::new()),
        })
    }
}

impl Git for FakeGit {
    fn run(&self, _repo: Option<&str>, args: &[&str], _stdin: Option<&[u8]>) -> Result<Vec<u8>, ToolError> {
        let key = args.join(" ");
        self.calls.borrow_mut().push(key.clone());
        for (k, v) in &self.answers {
            if *k == key {
                return v.clone().map_err(ToolError::new);
            }
        }
        Err(ToolError::new(format!("unexpected: git {key}")))
    }

    fn run_inherit(&self, _repo: Option<&str>, args: &[&str]) -> Result<(), ToolError> {
        self.calls.borrow_mut().push(args.join(" "));
        Ok(())
    }
}

#[test]
fn push_args_modes() {
    assert_eq!(
        push_args("u", false),
        [
            "push",
            "--force",
            "u",
            "refs/heads/*:refs/heads/*",
            "refs/tags/*:refs/tags/*"
        ]
    );
    assert_eq!(push_args("u", true), ["push", "--mirror", "--force", "u"]);
}

#[test]
fn push_info_lives_beside_the_mirror() {
    assert_eq!(PushInfo::path_for("/tmp/x/work.git"), "/tmp/x/work.git.pomona-push.toml");
    assert_eq!(PushInfo::path_for("work.git"), "work.git.pomona-push.toml");
    assert_eq!(info_file_name(Some("m")), "m.pomona-push.toml");
    assert_eq!(info_file_name(None), ".pomona-push.toml");
}

fn info(tips: Vec<(&str, &str)>, removed: Vec<&str>) -> PushInfo {
    PushInfo {
        version: PUSH_INFO_VERSION,
        url: Some("git@h:r.git".into()),
        branches: vec!["main".into(), "release-1".into()],
        tips: tips.into_iter().map(|(a, b)| (a.to_string(), b.to_string())).collect(),
        removed: removed.into_iter().map(str::to_string).collect(),
        reclaim_bytes: 42,
    }
}

#[test]
fn validate_accepts_only_version_one() {
    let i = info(vec![], vec![]);
    assert_eq!(i.clone().validate().unwrap(), i);
    let mut j = i;
    j.version = 3;
    assert_eq!(j.validate().err(), Some(InfoError::UnsupportedVersion(3)));
}

#[test]
fn snapshot_records_each_ref_once_in_order() {
    let mut g = FakeGit::new(vec![
        ("rev-parse --verify -q refs/heads/main^{tree}", Ok(b"t1\n")),
        ("rev-parse --verify -q refs/heads/a^{tree}", Ok(b"t2\n")),
    ]);
    let refs = vec!["refs/heads/main".to_string(), "refs/heads/a".to_string(), "refs/heads/main".to_string()];
    let tips = snapshot_tips(&mut g, "/m", &refs).unwrap();
    assert_eq!(
        tips,
        vec![
            ("refs/heads/a".to_string(), "t2".to_string()),
            ("refs/heads/main".to_string(), "t1".to_string())
        ]
    );
}

#[test]
fn verify_detects_tree_drift_and_present_blobs() {
    let mut g = FakeGit::new(vec![
        ("rev-parse --verify -q refs/heads/main^{tree}", Ok(b"t1\n")),
        ("rev-parse --verify -q refs/heads/release-1^{tree}", Ok(b"t2\n")),
        ("cat-file -e b0", Ok(b"")),
    ]);
    let ok = info(vec![("refs/heads/main", "t1"), ("refs/heads/release-1", "t2")], vec!["gone"]);
    verify(&mut g, "/m", &ok).unwrap();
    let drift = info(vec![("refs/heads/main", "deadbeef"), ("refs/heads/release-1", "t2")], vec![]);
    match verify(&mut g, "/m", &drift) {
        Err(VerifyError::TreeChanged { reference, expected, now }) => {
            assert_eq!((reference.as_str(), expected.as_str(), now.as_str()), ("refs/heads/main", "deadbeef", "t1"));
        }
        other => panic!("{other:?}"),
    }
    let reachable = info(vec![("refs/heads/main", "t1")], vec!["gone", "b0"]);
    assert!(matches!(verify(&mut g, "/m", &reachable), Err(VerifyError::StillPresent(o)) if o == "b0"));
    let unknown = info(vec![("refs/heads/nope", "t1")], vec![]);
    assert!(matches!(verify(&mut g, "/m", &unknown), Err(VerifyError::Git { reference, .. }) if reference == "refs/heads/nope"));
}

#[test]
fn largest_files_biggest_first_from_listing() {
    let listing: &[u8] = b"100644 blob aaaa  300000\tapp.tar.gz\x00100644 blob bbbb      13\ta.go\x00\
160000 commit cccc       -\tsub\x00100644 blob dddd      13\t0.go\x00";
    let mut g = FakeGit::new(vec![("ls-tree -r -l -z release-1", Ok(listing))]);
    let v = largest_files(&mut g, "/m", "release-1", 2).unwrap();
    assert_eq!(v.len(), 2);
    assert_eq!(v[0].1, "app.tar.gz");
    assert!(v[0].0 > v[1].0);
    assert_eq!(v[1], (13, "0.go".to_string()));
    let all = largest_in_listing(listing, 10);
    assert_eq!(
        all,
        vec![(300000, "app.tar.gz".to_string()), (13, "0.go".to_string()), (13, "a.go".to_string())]
    );
    assert!(largest_in_listing(listing, 0).is_empty());
}

#[test]
fn hook_env_carries_the_push_information() {
    let i = info(vec![], vec!["x", "y", "z"]);
    let env = hook_env("/w/m.git", "git@h:r.git", Some(&i));
    assert_eq!(
        env,
        vec![
            ("POMONA_MIRROR", "/w/m.git".to_string()),
            ("POMONA_URL", "git@h:r.git".to_string()),
            ("POMONA_REMOVED_BLOBS", "3".to_string()),
            ("POMONA_RECLAIMED_BYTES", "42".to_string()),
            ("POMONA_BRANCHES", "main,release-1".to_string()),
        ]
    );
    assert_eq!(hook_env("m", "u", None).len(), 2);
}

#[test]
fn snapshot_of_no_refs_asks_git_nothing() {
    let mut g = FakeGit::new(vec![]);
    assert!(snapshot_tips(&mut g, "/m", &[]).unwrap().is_empty());
    assert!(g.git.calls.borrow().is_empty());
}

#[test]
fn verify_checks_every_tip_then_every_blob_and_stops_at_the_first_failure() {
    let mut g = FakeGit::new(vec![
        ("rev-parse --verify -q refs/heads/main^{tree}", Ok(b"t1\n")),
        ("rev-parse --verify -q refs/heads/dev^{tree}", Ok(b"t9\n")),
    ]);
    let ok = info(vec![("refs/heads/main", "t1")], vec!["x1", "x2"]);
    verify(&mut g, "/m", &ok).unwrap();
    assert_eq!(
        *g.git.calls.borrow(),
        vec!["rev-parse --verify -q refs/heads/main^{tree}", "cat-file -e x1", "cat-file -e x2"]
    );
    g.git.calls.borrow_mut().clear();
    let drift = info(vec![("refs/heads/dev", "t2"), ("refs/heads/main", "t1")], vec!["x1"]);
    assert!(matches!(verify(&mut g, "/m", &drift), Err(VerifyError::TreeChanged { .. })));
    assert_eq!(*g.git.calls.borrow(), vec!["rev-parse --verify -q refs/heads/dev^{tree}"]);
}

#[test]
fn push_runs_only_with_yes_and_a_passing_pre_push() {
    assert_eq!(push_next(false, PushStage::Checked), PushNext::DryRun);
    assert_eq!(push_next(true, PushStage::Checked), PushNext::RunPrePush);
    assert_eq!(push_next(true, PushStage::PrePush(true)), PushNext::Push);
    assert_eq!(push_next(true, PushStage::PrePush(false)), PushNext::Stop);
    assert_eq!(push_next(false, PushStage::PrePush(true)), PushNext::Stop);
}

#[test]
fn force_push_is_one_push_in_the_mirror() {
    let mut g = FakeGit::new(vec![]);
    force_push(&mut g, "/m", "git@h:r.git", true).unwrap();
    force_push(&mut g, "/m", "git@h:r.git", false).unwrap();
    assert_eq!(
        *g.git.calls.borrow(),
        vec![
            "push --mirror --force git@h:r.git",
            "push --force git@h:r.git refs/heads/*:refs/heads/* refs/tags/*:refs/tags/*"
        ]
    );
}

#[test]
fn push_info_path_keeps_the_parent() {
    assert_eq!(PushInfo::path_for("./m.git"), "./m.git.pomona-push.toml");
    assert_eq!(PushInfo::path_for("a/b/m.git"), "a/b/m.git.pomona-push.toml");
}
