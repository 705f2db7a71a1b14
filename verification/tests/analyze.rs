use pomona::cmd::analyze::{is_url, plan_of_picks, sort_choice};
use pomona::model::{Pick, Reason};
use pomona::plan::{PlanPath, PLAN_VERSION};
use pomona::stats::SortBy;

#[test]
fn url_like_arguments() {
    assert!(is_url("git@github.com:x/y.git"));
    assert!(is_url("https://h/x.git"));
    assert!(!is_url("/nonexistent/dir"));
    assert!(!is_url("user@host"));
    assert!(!is_url("a:b"));
    assert!(is_url("file:///srv/r.git"));
}

#[test]
fn sort_choice_defaults_to_max() {
    assert_eq!(sort_choice("cum"), SortBy::Cum);
    assert_eq!(sort_choice("max"), SortBy::Max);
    assert_eq!(sort_choice("CUM"), SortBy::Max);
}

#[test]
fn plan_records_picks_in_order() {
    let picks = vec![
        Pick { path: "old/gone.bin".into(), reason: Reason::Orphan },
        Pick { path: "app.tar.gz".into(), reason: Reason::Manual },
    ];
    let p = plan_of_picks(
        "pomona 0.1.0".into(),
        None,
        "/r".into(),
        "origin".into(),
        1000,
        vec!["refs/tags/*".into()],
        &picks,
    );
    assert_eq!(p.version, PLAN_VERSION);
    assert_eq!(p.source.url, None);
    assert_eq!(p.source.local.as_deref(), Some("/r"));
    assert_eq!(p.policy.min_size, 1000);
    assert_eq!(
        p.paths,
        vec![
            PlanPath { path: "old/gone.bin".into(), reason: "orphan".into() },
            PlanPath { path: "app.tar.gz".into(), reason: "manual".into() },
        ]
    );
}
