use pomona::profile::{Overlay, Profile};
use pomona::size::SizeError;

#[test]
fn default_matches_archives_not_images() {
    let p = Profile::default();
    assert!(p.is_archive("dist/app.tar.gz"));
    assert!(p.is_archive("X.ZIP"));
    assert!(p.is_archive("pkg.rpm"));
    assert!(!p.is_archive("logo.png"));
    assert!(!p.is_archive("doc.pdf"));
    assert!(!p.is_archive("data.db"));
    assert!(p.is_source("main.go"));
    assert!(p.is_source("build/Makefile"));
    assert!(!p.is_source("app.tar.gz"));
    assert_eq!(p.min_size_bytes().unwrap(), 50 * 1024 * 1024);
}

#[test]
fn overlay_only_overrides_present_fields() {
    let p = Profile::default()
        .apply_overlay(Overlay {
            min_size: Some("10M".into()),
            archive_suffixes: Some(vec![".bundle".into()]),
            source_suffixes: None,
        })
        .unwrap();
    assert_eq!(p.min_size_bytes().unwrap(), 10 * 1024 * 1024);
    assert!(p.is_archive("x.bundle"));
    assert!(!p.is_archive("x.tar.gz"));
    assert!(p.is_source("main.go"));
    assert!(Profile::default()
        .apply_overlay(Overlay {
            min_size: Some("5X".into()),
            archive_suffixes: None,
            source_suffixes: None,
        })
        .is_err());
}

#[test]
fn overlay_with_bad_size_names_the_error() {
    let r = Profile::default().apply_overlay(Overlay {
        min_size: Some("1T".into()),
        archive_suffixes: Some(vec![".x".into()]),
        source_suffixes: None,
    });
    assert_eq!(r.err(), Some(SizeError::BadUnit));
}

#[test]
fn source_overlay_replaces_the_list() {
    let p = Profile::default()
        .apply_overlay(Overlay {
            min_size: None,
            archive_suffixes: None,
            source_suffixes: Some(vec![".rs".into()]),
        })
        .unwrap();
    assert!(p.is_source("a.rs"));
    assert!(!p.is_source("a.go"));
    assert_eq!(p.min_size, "50M");
}

#[test]
fn name_patterns_match_whole_file_names() {
    let p = Profile::default();
    assert!(p.is_source("Dockerfile"));
    assert!(p.is_source("x/dockerfile"));
    assert!(!p.is_source("x/Dockerfile.bak"));
    assert!(!p.is_source("notMakefile"));
    assert!(p.is_archive("a/B.Tar.Gz"));
}

#[test]
fn parse_lays_the_overlay_over_the_defaults() {
    let p = Profile::parse(Overlay {
        min_size: None,
        archive_suffixes: None,
        source_suffixes: Some(vec![".rs".into()]),
    })
    .unwrap();
    assert!(p.is_source("a.rs"));
    assert!(!p.is_source("a.go"));
    assert!(p.is_archive("a.zip"));
    assert_eq!(p.min_size_bytes(), Ok(50 * 1024 * 1024));
    assert!(Profile::parse(Overlay { min_size: Some("x".into()), archive_suffixes: None, source_suffixes: None }).is_err());
}
