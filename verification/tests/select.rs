use pomona::model::{Inventory, ObjectRec, Oid, Pick, Reason};
use pomona::profile::Profile;
use pomona::prompt::{Answer, Asked, ScriptedPrompt};
use pomona::select::{apply_rules, qualifies, reasons, review, Pattern, ReviewOpts, RuleSet};
use pomona::stats::SortBy;
use pomona::term::Shown;

fn inv() -> Inventory {
    let objects = vec![
        ObjectRec {
            oid: Oid::new("a1"),
            size: 100,
            path: "app.tar.gz".into(),
        },
        ObjectRec {
            oid: Oid::new("a2"),
            size: 900,
            path: "app.tar.gz".into(),
        },
        ObjectRec {
            oid: Oid::new("b1"),
            size: 5000,
            path: "bundle".into(),
        },
        ObjectRec {
            oid: Oid::new("o1"),
            size: 7,
            path: "old/gone.bin".into(),
        },
        ObjectRec {
            oid: Oid::new("s1"),
            size: 10,
            path: "src.go".into(),
        },
    ];
    let mut inv = Inventory::from_objects(objects, SortBy::Max);
    for p in ["app.tar.gz", "bundle", "src.go"] {
        inv.keep_paths.insert(p.into());
        inv.tips.insert(p, "main".into());
    }
    inv
}

#[test]
fn auto_detect_by_size_or_suffix() {
    let p = Profile::default();
    let rules = RuleSet {
        orphans: false,
        auto_detect: true,
        regexes: vec![],
        min_size: 1000,
        profile: &p,
    };
    let picks = apply_rules(&inv(), &rules);
    let paths: Vec<_> = picks.iter().map(|p| (p.path.as_str(), p.reason)).collect();
    assert_eq!(
        paths,
        vec![("bundle", Reason::Size), ("app.tar.gz", Reason::Suffix)]
    );
}

#[test]
fn orphans_first_then_regex() {
    let p = Profile::default();
    let rules = RuleSet {
        orphans: true,
        auto_detect: false,
        regexes: vec![Pattern::new("^src").unwrap()],
        min_size: 1000,
        profile: &p,
    };
    let picks = apply_rules(&inv(), &rules);
    let paths: Vec<_> = picks.iter().map(|p| (p.path.as_str(), p.reason)).collect();
    assert_eq!(
        paths,
        vec![("old/gone.bin", Reason::Orphan), ("src.go", Reason::Regex)]
    );
}

#[test]
fn review_walks_top_n_and_honours_answers() {
    let p = Profile::default();
    let rules = RuleSet {
        orphans: false,
        auto_detect: false,
        regexes: vec![],
        min_size: 1000,
        profile: &p,
    };
    // by Max: bundle(5000) app(900) src(10) gone(7); top 3; answers: Y, n, q
    let mut prompt = Asked::new(ScriptedPrompt::new(vec![Answer::Yes, Answer::No, Answer::Quit], vec![]));
    let mut out = Shown::new(String::new());
    let picks = review(
        &inv(),
        &[],
        &rules,
        &ReviewOpts {
            top: Some(3),
            sort: SortBy::Max,
        },
        &mut prompt,
        &mut out,
    )
    .unwrap();
    assert_eq!(
        picks,
        vec![Pick {
            path: "bundle".into(),
            reason: Reason::Manual
        }]
    );
    let text = out.sink;
    assert!(text.contains("[1/3]") && text.contains("bundle"));
    assert!(text.contains("[3/3]"), "第三项会展示后再被 q 结束");
    assert!(!text.contains("[4/"));
}

#[test]
fn review_skips_already_picked_and_orphans() {
    let p = Profile::default();
    let rules = RuleSet {
        orphans: true,
        auto_detect: false,
        regexes: vec![],
        min_size: 1000,
        profile: &p,
    };
    let already = vec![Pick {
        path: "bundle".into(),
        reason: Reason::Size,
    }];
    let mut prompt = Asked::new(ScriptedPrompt::new(vec![Answer::No, Answer::No], vec![]));
    let mut out = Shown::new(String::new());
    let picks = review(
        &inv(),
        &already,
        &rules,
        &ReviewOpts {
            top: None,
            sort: SortBy::Max,
        },
        &mut prompt,
        &mut out,
    )
    .unwrap();
    assert!(picks.is_empty());
    let text = out.sink;
    assert!(text.contains("孤儿"));
    assert!(text.contains("已选中"));
}

#[test]
fn reasons_describe_candidate() {
    let p = Profile::default();
    let i = inv();
    let s = i.stats.iter().find(|s| s.path == "app.tar.gz").unwrap();
    let r = reasons(&i, s, 1000, &p);
    assert!(r.iter().any(|x| x.contains("包扩展名")));
    assert!(r.iter().any(|x| x.contains("1 个分支")));
}

#[test]
fn reasons_for_large_orphan() {
    let p = Profile::default();
    let i = inv();
    let s = i.stats.iter().find(|s| s.path == "bundle").unwrap();
    let r = reasons(&i, s, 1000, &p);
    assert_eq!(r, vec!["超阈值(4.9KB)".to_string(), "1 个分支的最新版仍在用".to_string()]);
    let g = i.stats.iter().find(|s| s.path == "old/gone.bin").unwrap();
    assert_eq!(reasons(&i, g, 1000, &p), vec!["无分支引用(纯历史遗留)".to_string()]);
}

#[test]
fn qualifies_by_size_or_archive_suffix() {
    let p = Profile::default();
    assert!(qualifies(1000, "x.bin", 1000, &p));
    assert!(!qualifies(999, "x.bin", 1000, &p));
    assert!(qualifies(1, "dist/X.TGZ", 1000, &p));
}

#[test]
fn bad_pattern_is_reported() {
    let e = Pattern::new("(unclosed").err().unwrap();
    assert_eq!(e.pattern, "(unclosed");
    assert!(!e.message.is_empty());
}

#[test]
fn regex_rule_matches_anywhere_in_path() {
    let p = Profile::default();
    let rules = RuleSet {
        orphans: false,
        auto_detect: false,
        regexes: vec![Pattern::new(r"\.gz$").unwrap(), Pattern::new("gone").unwrap()],
        min_size: 1000,
        profile: &p,
    };
    let picks = apply_rules(&inv(), &rules);
    let paths: Vec<_> = picks.iter().map(|p| (p.path.as_str(), p.reason)).collect();
    assert_eq!(paths, vec![("app.tar.gz", Reason::Regex), ("old/gone.bin", Reason::Regex)]);
}

#[test]
fn review_quits_at_first_question() {
    let p = Profile::default();
    let rules = RuleSet {
        orphans: false,
        auto_detect: false,
        regexes: vec![],
        min_size: 1000,
        profile: &p,
    };
    let mut prompt = Asked::new(ScriptedPrompt::new(vec![Answer::Quit], vec![]));
    let mut out = Shown::new(String::new());
    let picks = review(&inv(), &[], &rules, &ReviewOpts { top: None, sort: SortBy::Cum }, &mut prompt, &mut out).unwrap();
    assert!(picks.is_empty());
    assert!(out.sink.contains("[1/4]"));
    assert!(!out.sink.contains("[2/4]"));
}

#[test]
fn a_path_hit_by_several_rules_is_chosen_once() {
    let p = Profile::default();
    let rules = RuleSet {
        orphans: true,
        auto_detect: true,
        regexes: vec![Pattern::new("gone").unwrap(), Pattern::new("bundle").unwrap()],
        min_size: 5,
        profile: &p,
    };
    let picks = apply_rules(&inv(), &rules);
    let paths: Vec<_> = picks.iter().map(|p| (p.path.as_str(), p.reason)).collect();
    assert_eq!(
        paths,
        vec![
            ("old/gone.bin", Reason::Orphan),
            ("bundle", Reason::Size),
            ("app.tar.gz", Reason::Size),
            ("src.go", Reason::Size),
        ]
    );
}

#[test]
fn review_shows_the_directory_of_each_path() {
    let p = Profile::default();
    let rules = RuleSet { orphans: false, auto_detect: false, regexes: vec![], min_size: 1000, profile: &p };
    let mut prompt = Asked::new(ScriptedPrompt::new(vec![Answer::No, Answer::No, Answer::No, Answer::No], vec![]));
    let mut out = Shown::new(String::new());
    review(&inv(), &[], &rules, &ReviewOpts { top: None, sort: SortBy::Max }, &mut prompt, &mut out).unwrap();
    assert!(out.sink.contains("  目录: old\n"));
    assert!(out.sink.contains("  目录: (仓库根目录)\n"));
}

#[test]
fn scripted_review_never_fails_and_follows_the_script() {
    let p = Profile::default();
    let rules = RuleSet { orphans: false, auto_detect: false, regexes: vec![], min_size: 1000, profile: &p };
    let mut prompt = Asked::new(ScriptedPrompt::new(vec![Answer::No, Answer::Yes], vec![]));
    let mut out = Shown::new(String::new());
    let picks = review(&inv(), &[], &rules, &ReviewOpts { top: Some(2), sort: SortBy::Max }, &mut prompt, &mut out).unwrap();
    // by Max: bundle, then app.tar.gz; No to the first, Yes to the second
    assert_eq!(picks, vec![Pick { path: "app.tar.gz".into(), reason: Reason::Manual }]);
    assert!(prompt.prompt.answers.is_empty());
    assert!(out.sink.contains("[2/2]"));
}
