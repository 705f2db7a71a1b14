use std::cell::RefCell;

use pomona::error::ToolError;
use pomona::git::{Git, GitLog};
use pomona::mirror::{branch_names, build, head_symrefs, remote_branch, MirrorError, Source};

struct FakeGit {
    answers: Vec<(String, Vec<u8>)>,
    calls: RefCell<Vec<String>>,
}

impl FakeGit {
    fn new(answers: Vec<(&str, &[u8])>) -> GitLog<FakeGit> {
        GitLog::new(FakeGit {
            answers: answers.into_iter().map(|(k, v)| (k.to_string(), v.to_vec())).collect(),
            calls: RefCell::new(Vec::new()),
        })
    }
}

impl Git for FakeGit {
    fn run(&self, _repo: Option<&str>, args: &[&str], _stdin: Option<&[u8]>) -> Result<Vec<u8>, ToolError> {
        let key = args.join(" ");
        self.calls.borrow_mut().push(key.clone());
        for (k, v) in &self.answers {
            if *k == key {
                return Ok(v.clone());
            }
        }
        Ok(Vec::new())
    }

    fn run_inherit(&self, _repo: Option<&str>, args: &[&str]) -> Result<(), ToolError> {
        self.calls.borrow_mut().push(args.join(" "));
        Ok(())
    }
}

#[test]
fn resolve_rejects_nothing() {
    assert!(Source::resolve(None, None, false).is_err());
    assert!(Source::resolve(None, Some("/nonexistent/x"), false).is_err());
    assert!(matches!(
        Source::resolve(Some("git@h:r.git"), Some("/nonexistent/x"), false).unwrap(),
        Source::UrlOnly { .. }
    ));
}

#[test]
fn resolve_trims_the_url_and_needs_a_directory() {
    match Source::resolve(Some("  git@h:r.git \n"), Some("/dev"), true).unwrap() {
        Source::Online { url, local } => {
            assert_eq!(url, "git@h:r.git");
            assert_eq!(local, "/dev");
        }
        other => panic!("{other:?}"),
    }
    assert!(matches!(Source::resolve(Some("   "), Some("/dev"), true).unwrap(), Source::Offline { .. }));
    assert!(matches!(Source::resolve(Some(""), None, true), Err(MirrorError::NoSource)));
}

#[test]
fn url_and_description() {
    let on = Source::Online { url: "u".into(), local: "/l".into() };
    assert_eq!(on.url(), Some("u"));
    assert_eq!(on.describe(), "在线：从 u 取全部分支，复用本地对象 /l");
    let only = Source::UrlOnly { url: "u".into() };
    assert_eq!(only.describe(), "在线：从 u 完整镜像克隆");
    let off = Source::Offline { local: "/l".into() };
    assert_eq!(off.url(), None);
    assert_eq!(off.describe(), "离线：镜像本地克隆 /l，用 origin/* 重建分支");
}

#[test]
fn remote_branch_takes_what_follows_the_remote() {
    assert_eq!(remote_branch("refs/remotes/origin/release/1"), Some("release/1".to_string()));
    assert_eq!(remote_branch("refs/remotes/refs/remotes/o/x"), Some("x".to_string()));
    assert_eq!(remote_branch("refs/remotes/lonely"), None);
}

#[test]
fn head_symrefs_keep_only_head_lines() {
    let out = b"refs/remotes/origin/HEAD\nrefs/remotes/origin/main\nrefs/remotes/up/HEAD\r\n".to_vec();
    assert_eq!(head_symrefs(out), vec!["refs/remotes/origin/HEAD", "refs/remotes/up/HEAD"]);
}

#[test]
fn branch_names_drop_the_heads_prefix() {
    let v = vec!["refs/heads/main".to_string(), "refs/heads/refs/heads/x".to_string(), "other".to_string()];
    assert_eq!(branch_names(&v), vec!["main", "x", "other"]);
}

#[test]
fn existing_workdir_is_refused_before_any_git_call() {
    let mut g = FakeGit::new(vec![]);
    let src = Source::UrlOnly { url: "u".into() };
    assert!(matches!(build(&mut g, &src, "/w", true), Err(MirrorError::WorkdirExists)));
    assert!(g.git.calls.borrow().is_empty());
}

#[test]
fn online_clone_uses_the_reference() {
    let mut g = FakeGit::new(vec![(
        "for-each-ref --format=%(refname) refs/heads/",
        b"refs/heads/main\nrefs/heads/release-1\n",
    )]);
    let src = Source::Online { url: "git@h:r.git".into(), local: "/dev".into() };
    let b = build(&mut g, &src, "/w/m.git", false).unwrap();
    assert_eq!(b, vec!["main", "release-1"]);
    assert_eq!(
        g.git.calls.borrow()[0],
        "clone --mirror --reference /dev --dissociate git@h:r.git /w/m.git"
    );
}

#[test]
fn mirror_without_branches_is_an_error() {
    let mut g = FakeGit::new(vec![]);
    let src = Source::UrlOnly { url: "u".into() };
    assert!(matches!(build(&mut g, &src, "/w", false), Err(MirrorError::NoBranches)));
}

#[test]
fn offline_remaps_remote_tracking_refs() {
    let mut g = FakeGit::new(vec![
        ("for-each-ref --format=%(refname) refs/heads/", b"refs/heads/main\n"),
        (
            "for-each-ref --format=%(refname) refs/remotes/",
            b"refs/remotes/origin/HEAD\nrefs/remotes/origin/main\nrefs/remotes/origin/dev\n",
        ),
    ]);
    let src = Source::Offline { local: "/dev".into() };
    let b = build(&mut g, &src, "/w", false).unwrap();
    assert_eq!(b, vec!["main"]);
    let calls = g.git.calls.borrow().clone();
    let expected = [
        "clone --mirror /dev /w",
        "for-each-ref --format=%(refname) refs/heads/",
        "update-ref -d refs/heads/main",
        "for-each-ref --format=%(refname) refs/remotes/",
        "update-ref --no-deref -d refs/remotes/origin/HEAD",
        "for-each-ref --format=%(refname) refs/remotes/",
        "update-ref refs/heads/main refs/remotes/origin/main",
        "update-ref refs/heads/dev refs/remotes/origin/dev",
        "update-ref -d refs/remotes/origin/main",
        "update-ref -d refs/remotes/origin/dev",
        "for-each-ref --format=%(refname) refs/heads/",
    ];
    assert_eq!(calls, expected);
}

#[test]
fn url_only_clone_is_a_plain_mirror() {
    let mut g = FakeGit::new(vec![("for-each-ref --format=%(refname) refs/heads/", b"refs/heads/main\n")]);
    let src = Source::UrlOnly { url: "git@h:r.git".into() };
    assert_eq!(build(&mut g, &src, "/w", false).unwrap(), vec!["main"]);
    assert_eq!(*g.git.calls.borrow(), vec!["clone --mirror git@h:r.git /w", "for-each-ref --format=%(refname) refs/heads/"]);
}
