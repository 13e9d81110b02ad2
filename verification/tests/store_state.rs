//! Store bookkeeping: install/remove transitions, uniqueness, and the
//! change-detection cache.

use rid::package::{Package, PackageStatus};
use rid::sets::SetFile;
use rid::tracking::{add, cache_changes, cache_one, rem, MetaEntry, StoreError};

fn pkg(name: &str, version: &str) -> Package {
    Package {
        deps: Vec::new(),
        description: String::new(),
        downloads: Vec::new(),
        installed_version: String::new(),
        link: String::new(),
        name: name.to_string(),
        news: String::new(),
        selector: String::new(),
        status: PackageStatus::Available,
        upstream: String::new(),
        version: version.to_string(),
        version_command: String::new(),
    }
}

fn unique_names(store: &[Package]) -> bool {
    for i in 0..store.len() {
        for j in i + 1..store.len() {
            if store[i].name == store[j].name {
                return false;
            }
        }
    }
    true
}

#[test]
fn add_marks_installed_at_version() {
    let mut store = vec![pkg("alpha", "1.2"), pkg("beta", "2.0")];
    let p = store[0].clone();
    add(&mut store, &p);
    assert!(matches!(store[0].status, PackageStatus::Installed));
    assert_eq!(store[0].installed_version, p.version);
    assert_eq!(store[1].installed_version, "");
}

#[test]
fn add_unknown_name_is_noop() {
    let mut store = vec![pkg("alpha", "1.2")];
    let stranger = pkg("stranger", "9.9");
    add(&mut store, &stranger);
    assert_eq!(store.len(), 1);
    assert!(matches!(store[0].status, PackageStatus::Available));
}

#[test]
fn rem_clears_install_state() {
    let mut store = vec![pkg("alpha", "1.2")];
    let p = store[0].clone();
    add(&mut store, &p);
    let r = rem(&mut store, &p);
    assert!(r.is_ok());
    assert!(matches!(store[0].status, PackageStatus::Available));
    assert_eq!(store[0].installed_version, "");
}

#[test]
fn rem_unknown_name_reports_not_found() {
    let mut store = vec![pkg("alpha", "1.2")];
    let stranger = pkg("stranger", "9.9");
    match rem(&mut store, &stranger) {
        Err(StoreError::NotFound { name }) => assert_eq!(name, "stranger"),
        _ => panic!("expected a NotFound report"),
    }
}

#[test]
fn uniqueness_preserved_by_operations() {
    let mut store = vec![pkg("a", "1"), pkg("b", "2")];
    let a = store[0].clone();
    let b = store[1].clone();
    add(&mut store, &a);
    add(&mut store, &b);
    let _ = rem(&mut store, &a);
    add(&mut store, &a);
    let files: Vec<SetFile> = Vec::new();
    let _ = cache_one(&mut store, "c", "NAME: c\nVERS: 3\n", &files);
    let _ = cache_one(&mut store, "a", "NAME: a\nVERS: 1.1\n", &files);
    assert!(unique_names(&store));
}

#[test]
fn cache_one_appends_new_and_replaces_matching() {
    let mut store = vec![pkg("a", "1")];
    let files: Vec<SetFile> = Vec::new();
    let stored = cache_one(&mut store, "b", "NAME: b\nVERS: 2\n", &files).unwrap();
    assert!(stored);
    assert_eq!(store.len(), 2);
    assert_eq!(store[1].name, "b");
    assert_eq!(store[1].version, "2");
    let stored = cache_one(&mut store, "a", "NAME: a\nVERS: 1.5\n", &files).unwrap();
    assert!(stored);
    assert_eq!(store.len(), 2);
    assert_eq!(store[0].version, "1.5");
}

#[test]
fn cache_skips_reserved_and_nameless() {
    let mut store = vec![pkg("a", "1")];
    let files: Vec<SetFile> = Vec::new();
    assert!(!cache_one(&mut store, "LICENSE", "NAME: x\n", &files).unwrap());
    assert!(!cache_one(&mut store, "x", "VERS: 2\n", &files).unwrap());
    assert_eq!(store.len(), 1);
}

#[test]
fn refresh_rederives_only_newer_entries() {
    let mut store = vec![pkg("old", "1"), pkg("new", "1")];
    let untouched = store[0].clone();
    let files: Vec<SetFile> = Vec::new();
    let entries = vec![
        MetaEntry { name: "old".to_string(), mtime: 5, metadata: "NAME: old\nVERS: 7\n".to_string() },
        MetaEntry { name: "new".to_string(), mtime: 20, metadata: "NAME: new\nVERS: 2\n".to_string() },
    ];
    let n = cache_changes(&mut store, &entries, 10, false, &files).unwrap();
    assert_eq!(n, 1);
    assert_eq!(store[0].name, untouched.name);
    assert_eq!(store[0].version, untouched.version);
    assert_eq!(store[1].version, "2");
}

#[test]
fn forced_refresh_rederives_everything() {
    let mut store = vec![pkg("old", "1"), pkg("new", "1")];
    let files: Vec<SetFile> = Vec::new();
    let entries = vec![
        MetaEntry { name: "old".to_string(), mtime: 5, metadata: "NAME: old\nVERS: 7\n".to_string() },
        MetaEntry { name: "new".to_string(), mtime: 20, metadata: "NAME: new\nVERS: 2\n".to_string() },
    ];
    let n = cache_changes(&mut store, &entries, 10, true, &files).unwrap();
    assert_eq!(n, 2);
    assert_eq!(store[0].version, "7");
    assert_eq!(store[1].version, "2");
}

#[test]
fn refresh_skips_housekeeping_entries() {
    let mut store: Vec<Package> = Vec::new();
    let files: Vec<SetFile> = Vec::new();
    let entries = vec![
        MetaEntry { name: "README.md".to_string(), mtime: 99, metadata: "NAME: x\n".to_string() },
        MetaEntry { name: ".git".to_string(), mtime: 99, metadata: "NAME: y\n".to_string() },
        MetaEntry { name: "real".to_string(), mtime: 99, metadata: "NAME: real\nVERS: 1\n".to_string() },
    ];
    let n = cache_changes(&mut store, &entries, 0, false, &files).unwrap();
    assert_eq!(n, 1);
    assert_eq!(store.len(), 1);
    assert_eq!(store[0].name, "real");
}

#[test]
fn refresh_keeps_install_state_of_replaced_record() {
    let mut store = vec![pkg("a", "1")];
    let a = store[0].clone();
    add(&mut store, &a);
    let files: Vec<SetFile> = Vec::new();
    let entries = vec![MetaEntry {
        name: "a".to_string(),
        mtime: 50,
        metadata: "NAME: a\nVERS: 2\n".to_string(),
    }];
    cache_changes(&mut store, &entries, 10, false, &files).unwrap();
    assert_eq!(store[0].version, "2");
    assert!(matches!(store[0].status, PackageStatus::Installed));
    assert_eq!(store[0].installed_version, "1");
}

#[test]
fn watermark_boundary_is_inclusive() {
    let mut store = vec![pkg("edge", "1")];
    let files: Vec<SetFile> = Vec::new();
    let entries = vec![MetaEntry {
        name: "edge".to_string(),
        mtime: 10,
        metadata: "NAME: edge\nVERS: 2\n".to_string(),
    }];
    let n = cache_changes(&mut store, &entries, 10, false, &files).unwrap();
    assert_eq!(n, 1);
    assert_eq!(store[0].version, "2");
}

#[test]
fn refresh_aborts_on_a_missing_dependency_set() {
    let mut store = vec![pkg("solid", "1")];
    let files: Vec<SetFile> = Vec::new();
    let entries = vec![MetaEntry {
        name: "broken".to_string(),
        mtime: 99,
        metadata: "NAME: broken\nDEPS: @ghost\n".to_string(),
    }];
    let r = cache_changes(&mut store, &entries, 0, false, &files);
    assert!(r.is_err());
    assert_eq!(store.len(), 1);
    assert_eq!(store[0].name, "solid");
}
