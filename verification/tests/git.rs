use std::cell::RefCell;

use pomona::error::ToolError;
use pomona::git::{
    describe, stderr_tail,
    config_get, for_each_ref, history_objects, is_repo, ls_tree_blobs, object_exists, parse_batch_check,
    parse_ls_tree_z, parse_u64, ref_names, rev_parse, tree_of, Git, GitLog,
};
use pomona::model::{ObjectRec, Oid};

/// A git that answers from a table keyed by the joined arguments and records
/// every call.
struct FakeGit {
    answers: Vec<(String, Result<Vec<u8>, String>)>,
    calls: RefCell<Vec<String>>,
}

impl FakeGit {
    fn new(answers: Vec<(&str, Result<&[u8], &str>)>) -> GitLog<FakeGit> {
        GitLog::new(FakeGit {
            answers: answers
                .into_iter()
                .map(|(k, v)| (k.to_string(), v.map(|b| b.to_vec()).map_err(|e| e.to_string())))
                .collect(),
            calls: RefCell::new(Vec::new()),
        })
    }
}

impl Git for FakeGit {
    fn run(&self, _repo: Option<&str>, args: &[&str], _stdin: Option<&[u8]>) -> Result<Vec<u8>, ToolError> {
        let key = args.join(" ");
        self.calls.borrow_mut().push(key.clone());
        for (k, v) in &self.answers {
            if *k == key {
                return v.clone().map_err(ToolError::new);
            }
        }
        Err(ToolError::new(format!("unexpected: git {key}")))
    }

    fn run_inherit(&self, _repo: Option<&str>, args: &[&str]) -> Result<(), ToolError> {
        self.calls.borrow_mut().push(args.join(" "));
        Ok(())
    }
}

#[test]
fn parses_ls_tree_z() {
    let raw = b"100644 blob aaaa\tsrc.go\x00160000 commit bbbb\tsub\x00100644 blob cccc\tpkg dir/app.tar.gz\x00";
    let v = parse_ls_tree_z(raw);
    assert_eq!(
        v,
        vec![
            (Oid::new("aaaa"), "src.go".to_string()),
            (Oid::new("cccc"), "pkg dir/app.tar.gz".to_string())
        ]
    );
}

#[test]
fn parses_batch_check() {
    let raw = b"commit 1111 200 \ntree 2222 30 \nblob 3333 1024 app.tar.gz\nblob 4444 5 a b.txt\nblob 5555 9 \n";
    let v = parse_batch_check(raw);
    assert_eq!(
        v,
        vec![
            ObjectRec {
                oid: Oid::new("3333"),
                size: 1024,
                path: "app.tar.gz".into()
            },
            ObjectRec {
                oid: Oid::new("4444"),
                size: 5,
                path: "a b.txt".into()
            },
        ]
    );
}

#[test]
fn ls_tree_skips_records_without_tab_or_type() {
    let raw = b"100644 blob aaaa\x00100644 blob\tx\x00\x00100644 tree dddd\td\x00";
    assert!(parse_ls_tree_z(raw).is_empty());
}

#[test]
fn batch_check_rejects_bad_sizes() {
    let raw = b"blob 1111 12x a\nblob 2222 99999999999999999999 b\nblob 3333 +7 c\n";
    let v = parse_batch_check(raw);
    assert_eq!(v.len(), 1);
    assert_eq!(v[0].size, 7);
    assert_eq!(v[0].path, "c");
}

#[test]
fn u64_parsing_matches_std() {
    for s in ["0", "42", "+7", "18446744073709551615", "18446744073709551616", "", "+", "-1", "1 2", "007"] {
        let cs: Vec<char> = s.chars().collect();
        assert_eq!(parse_u64(&cs), s.parse::<u64>().ok(), "{s}");
    }
}

#[test]
fn ref_names_drop_head_and_blank_lines() {
    let out = b"refs/remotes/origin/HEAD\r\nrefs/remotes/origin/main\r\n\nrefs/remotes/origin/dev\n".to_vec();
    assert_eq!(ref_names(out), vec!["refs/remotes/origin/main", "refs/remotes/origin/dev"]);
}

#[test]
fn for_each_ref_passes_patterns() {
    let mut g = FakeGit::new(vec![(
        "for-each-ref --format=%(refname) refs/heads/ refs/tags/",
        Ok(b"refs/heads/main\nrefs/tags/v1\n"),
    )]);
    let v = for_each_ref(&mut g, "/r", &["refs/heads/", "refs/tags/"]).unwrap();
    assert_eq!(v, vec!["refs/heads/main", "refs/tags/v1"]);
}

#[test]
fn ls_tree_blobs_and_history_objects_go_through_git() {
    let mut g = FakeGit::new(vec![
        ("ls-tree -r -z main", Ok(b"100644 blob aaaa\ta.go\x00")),
        ("rev-list --objects --all", Ok(b"aaaa a.go\n")),
        (
            "cat-file --batch-check=%(objecttype) %(objectname) %(objectsize) %(rest)",
            Ok(b"blob aaaa 10 a.go\n"),
        ),
    ]);
    let blobs = ls_tree_blobs(&mut g, "/r", "main").unwrap();
    assert_eq!(blobs, vec![(Oid::new("aaaa"), "a.go".to_string())]);
    let objs = history_objects(&mut g, "/r").unwrap();
    assert_eq!(objs.len(), 1);
    assert_eq!(objs[0].size, 10);
}

#[test]
fn rev_parse_and_tree_of_trim_output() {
    let mut g = FakeGit::new(vec![
        ("rev-parse --verify -q main", Ok(b"  abc123 \n")),
        ("rev-parse --verify -q main^{tree}", Ok(b"def456\n")),
    ]);
    assert_eq!(rev_parse(&mut g, "/r", "main").unwrap(), "abc123");
    assert_eq!(tree_of(&mut g, "/r", "main").unwrap(), "def456");
}

#[test]
fn object_exists_and_config_get_follow_exit_status() {
    let mut g = FakeGit::new(vec![
        ("cat-file -e aaaa", Ok(b"")),
        ("config --get remote.origin.url", Ok(b"git@h:r.git\n")),
        ("config --get remote.empty.url", Ok(b"  \n")),
    ]);
    assert!(object_exists(&mut g, "/r", &Oid::new("aaaa")));
    assert!(!object_exists(&mut g, "/r", &Oid::new("0000")));
    assert_eq!(config_get(&mut g, "/r", "remote.origin.url").unwrap(), Some("git@h:r.git".to_string()));
    assert_eq!(config_get(&mut g, "/r", "remote.empty.url").unwrap(), None);
    assert_eq!(config_get(&mut g, "/r", "remote.none.url").unwrap(), None);
}

#[test]
fn is_repo_needs_a_directory_and_git() {
    let mut g = FakeGit::new(vec![("rev-parse --git-dir", Ok(b".git\n"))]);
    assert!(is_repo(&mut g, "/r", true));
    assert!(!is_repo(&mut g, "/r", false));
    assert_eq!(g.git.calls.borrow().len(), 1);
    let mut none = FakeGit::new(vec![]);
    assert!(!is_repo(&mut none, "/r", true));
}

#[test]
fn failing_git_is_reported() {
    let mut g = FakeGit::new(vec![("rev-parse --verify -q nope", Err("bad revision"))]);
    let e = rev_parse(&mut g, "/r", "nope").unwrap_err();
    assert_eq!(e.message, "bad revision");
}

#[test]
fn describe_joins_the_arguments() {
    assert_eq!(describe(&["cat-file", "-e", "abc"]), "git cat-file -e abc");
    assert_eq!(describe(&[]), "git ");
}

#[test]
fn stderr_tail_keeps_the_last_five_lines() {
    let err = b"1\n2\n3\n4\n5\n6\n7\n";
    assert_eq!(stderr_tail(err), "3\n4\n5\n6\n7");
    assert_eq!(stderr_tail(b"  fatal: bad\r\n\n"), "fatal: bad");
    assert_eq!(stderr_tail(b""), "");
}

#[test]
fn history_objects_stops_when_the_listing_fails() {
    let mut g = FakeGit::new(vec![]);
    assert!(history_objects(&mut g, "/r").is_err());
    assert_eq!(*g.git.calls.borrow(), vec!["rev-list --objects --all"]);
}
