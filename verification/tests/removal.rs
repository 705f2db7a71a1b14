use pomona::model::{Inventory, ObjectRec, Oid, Reason};
use pomona::removal::plan_removal;
use pomona::stats::SortBy;

fn inv() -> Inventory {
    let objects = vec![
        ObjectRec {
            oid: Oid::new("a1"),
            size: 100,
            path: "app.tar.gz".into(),
        },
        ObjectRec {
            oid: Oid::new("a2"),
            size: 200,
            path: "app.tar.gz".into(),
        },
        ObjectRec {
            oid: Oid::new("a3"),
            size: 300,
            path: "app.tar.gz".into(),
        },
        ObjectRec {
            oid: Oid::new("s1"),
            size: 10,
            path: "src.go".into(),
        },
    ];
    let mut inv = Inventory::from_objects(objects, SortBy::Max);
    inv.keep_blobs.insert(Oid::new("a3"));
    inv.keep_blobs.insert(Oid::new("s1"));
    inv.keep_paths.insert("app.tar.gz".into());
    inv.keep_paths.insert("src.go".into());
    inv
}

#[test]
fn removes_only_non_tip_blobs_of_selected_paths() {
    let r = plan_removal(&inv(), &["app.tar.gz".to_string()]);
    assert_eq!(
        r.remove.to_vec().iter().map(|o| o.as_str().to_string()).collect::<Vec<_>>(),
        ["a1", "a2"]
    );
    assert_eq!(r.kept, 1);
    assert_eq!(r.reclaim_bytes, 300);
}

#[test]
fn unselected_paths_untouched() {
    let r = plan_removal(&inv(), &["src.go".to_string()]);
    assert!(r.remove.is_empty());
    assert_eq!(r.kept, 1);
}

#[test]
fn stats_aggregate_per_path() {
    let i = inv();
    let app = i.stats.iter().find(|s| s.path == "app.tar.gz").unwrap();
    assert_eq!((app.max, app.cum, app.versions), (300, 600, 3));
    assert_eq!(i.stats[0].path, "app.tar.gz");
    let mut byc = inv();
    byc.sort(SortBy::Cum);
    assert_eq!(byc.stats[0].path, "app.tar.gz");
}

#[test]
fn orphan_detection() {
    let mut i = inv();
    i.keep_paths.remove("src.go");
    assert!(i.is_orphan("src.go"));
    assert_eq!(i.orphans(), vec!["src.go".to_string()]);
}

#[test]
fn reason_roundtrip() {
    for r in [
        Reason::Orphan,
        Reason::Size,
        Reason::Suffix,
        Reason::Regex,
        Reason::Manual,
    ] {
        assert_eq!(r.to_string().parse::<Reason>().unwrap(), r);
    }
    assert!("nope".parse::<Reason>().is_err());
}

#[test]
fn kept_blob_is_never_removed_even_under_another_path() {
    // the same blob recorded under two paths: one of them chosen, the blob kept
    let objects = vec![
        ObjectRec { oid: Oid::new("x1"), size: 50, path: "big.bin".into() },
        ObjectRec { oid: Oid::new("x1"), size: 50, path: "copy.bin".into() },
        ObjectRec { oid: Oid::new("x2"), size: 70, path: "big.bin".into() },
    ];
    let mut inv = Inventory::from_objects(objects, SortBy::Max);
    inv.keep_blobs.insert(Oid::new("x1"));
    let r = plan_removal(&inv, &["big.bin".to_string(), "copy.bin".to_string()]);
    assert!(!r.remove.contains(&Oid::new("x1")));
    assert!(r.remove.contains(&Oid::new("x2")));
    assert_eq!(r.kept, 1);
    assert_eq!(r.reclaim_bytes, 70);
}

#[test]
fn removed_blob_counted_once() {
    let objects = vec![
        ObjectRec { oid: Oid::new("d1"), size: 40, path: "a.zip".into() },
        ObjectRec { oid: Oid::new("d1"), size: 40, path: "b.zip".into() },
    ];
    let inv = Inventory::from_objects(objects, SortBy::Max);
    let r = plan_removal(&inv, &["a.zip".to_string(), "b.zip".to_string()]);
    assert_eq!(r.remove.len(), 1);
    assert_eq!(r.reclaim_bytes, 40);
}

#[test]
fn stats_order_ties_by_path() {
    let objects = vec![
        ObjectRec { oid: Oid::new("1"), size: 5, path: "b".into() },
        ObjectRec { oid: Oid::new("2"), size: 5, path: "a".into() },
        ObjectRec { oid: Oid::new("3"), size: 9, path: "c".into() },
        ObjectRec { oid: Oid::new("4"), size: 1, path: "c".into() },
    ];
    let inv = Inventory::from_objects(objects, SortBy::Max);
    let order: Vec<_> = inv.stats.iter().map(|s| s.path.as_str()).collect();
    assert_eq!(order, ["c", "a", "b"]);
    let c = &inv.stats[0];
    assert_eq!((c.max, c.cum, c.versions), (9, 10, 2));
}

#[test]
fn reason_names_and_labels() {
    assert_eq!(Reason::Orphan.as_str(), "orphan");
    assert_eq!(Reason::Manual.to_string(), "manual");
    assert_eq!(Reason::Suffix.label(), "包扩展名");
    assert_eq!(Reason::from_name("regex"), Some(Reason::Regex));
    assert_eq!(Reason::from_name("Regex"), None);
}

#[test]
fn unknown_reason_names_the_text() {
    assert_eq!("nope".parse::<Reason>().unwrap_err(), "未知 reason: nope");
    assert_eq!("size".parse::<Reason>(), Ok(Reason::Size));
}
