use pomona::plan::{Plan, PlanError, PlanPath, PlanPolicy, PlanSource, PLAN_VERSION};

fn sample() -> Plan {
    Plan {
        version: PLAN_VERSION,
        generated_by: "pomona test".into(),
        source: PlanSource {
            url: Some("git@h:g/r.git".into()),
            local: Some("/tmp/r".into()),
            remote: "origin".into(),
        },
        policy: PlanPolicy {
            min_size: 52428800,
            keep_refs: vec!["refs/tags/*".into(), "refs/heads/keep me".into()],
        },
        paths: vec![
            PlanPath {
                path: "app.tar.gz".into(),
                reason: "size".into(),
            },
            PlanPath {
                path: "pkg dir/x.zip".into(),
                reason: "suffix".into(),
            },
        ],
    }
}

#[test]
fn rejects_bad_version_and_empty_paths() {
    let mut p = sample();
    p.version = 2;
    assert!(p.validate().is_err());
    let mut p = sample();
    p.paths.clear();
    assert!(p.validate().is_err());
}

#[test]
fn validate_names_the_problem() {
    let mut p = sample();
    p.version = 7;
    p.paths.clear();
    assert_eq!(p.validate().err(), Some(PlanError::UnsupportedVersion(7)));
    let mut p = sample();
    p.paths.clear();
    assert_eq!(p.validate().err(), Some(PlanError::NoPaths));
    assert_eq!(sample().validate().unwrap(), sample());
}

#[test]
fn render_puts_notes_before_the_body() {
    let text = Plan::render(&["预计可回收: 1.2GB".to_string(), "x".to_string()], "version = 1\n");
    assert!(text.starts_with("# Pomona plan"));
    assert_eq!(
        text,
        "# Pomona plan（由 git pomona analyze 生成，供 git pomona clean 使用）\n# 预计可回收: 1.2GB\n# x\n\nversion = 1\n"
    );
    let bare = Plan::render(&[], "b");
    assert!(bare.ends_with("使用）\n\nb"));
}

#[test]
fn path_list_in_plan_order() {
    assert_eq!(sample().path_list(), vec!["app.tar.gz", "pkg dir/x.zip"]);
}
