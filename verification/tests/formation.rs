//! Package formation from metadata text.

use rid::package::{FormError, Package, PackageStatus};
use rid::sets::{SetError, SetFile};

fn record(name: &str, version: &str) -> Package {
    Package {
        deps: Vec::new(),
        description: String::new(),
        downloads: Vec::new(),
        installed_version: String::new(),
        link: String::new(),
        name: name.to_string(),
        news: String::new(),
        selector: String::new(),
        status: PackageStatus::Available,
        upstream: String::new(),
        version: version.to_string(),
        version_command: String::new(),
    }
}

#[test]
fn forms_every_field_from_tags() {
    let md = "NAME: tar\nVERS: 1.35\nDESC: an archiver\nLINK: https://example.invalid/tar.tar\n\
UPST: https://example.invalid/tar.git\nSELE: releases\nVCMD: echo 1.35\nNEWS: none today\n\
DEPS: a b\nDOWN: extra1 extra2\nJUNK: ignored\n";
    let store: Vec<Package> = Vec::new();
    let files: Vec<SetFile> = Vec::new();
    let p = Package::def("tar", md, &store, &files).unwrap();
    assert_eq!(p.name, "tar");
    assert_eq!(p.version, "1.35");
    assert_eq!(p.description, "an archiver");
    assert_eq!(p.link, "https://example.invalid/tar.tar");
    assert_eq!(p.upstream, "https://example.invalid/tar.git");
    assert_eq!(p.selector, "releases");
    assert_eq!(p.version_command, "echo 1.35");
    assert_eq!(p.news, "none today");
    assert_eq!(p.deps, vec!["a".to_string(), "b".to_string()]);
    assert_eq!(p.downloads, vec!["extra1".to_string(), "extra2".to_string()]);
    assert!(matches!(p.status, PackageStatus::Available));
    assert_eq!(p.installed_version, "");
}

#[test]
fn last_tag_line_wins() {
    let md = "NAME: a\nVERS: 1\nVERS: 2\n";
    let p = Package::def("a", md, &Vec::new(), &Vec::new()).unwrap();
    assert_eq!(p.version, "2");
}

#[test]
fn missing_name_is_malformed() {
    match Package::def("x", "VERS: 1\n", &Vec::new(), &Vec::new()) {
        Err(FormError::MalformedMetadata { id }) => assert_eq!(id, "x"),
        _ => panic!("expected malformed metadata"),
    }
}

#[test]
fn reserved_identifier_is_refused() {
    for id in ["README.md", "LICENSE", ".git"] {
        match Package::def(id, "NAME: x\n", &Vec::new(), &Vec::new()) {
            Err(FormError::Refused { id: got }) => assert_eq!(got, id),
            _ => panic!("expected the reserved identifier to be refused"),
        }
    }
}

#[test]
fn dependency_sets_are_expanded() {
    let store = vec![record("base", "1"), record("extra", "1")];
    let files = vec![SetFile {
        name: "group".to_string(),
        lines: vec!["base".to_string(), "extra".to_string()],
    }];
    let md = "NAME: thing\nDEPS: @group solo\n";
    let p = Package::def("thing", md, &store, &files).unwrap();
    assert_eq!(
        p.deps,
        vec!["base".to_string(), "extra".to_string(), "solo".to_string()]
    );
}

#[test]
fn missing_dependency_set_aborts_formation() {
    let store = vec![record("base", "1")];
    let files: Vec<SetFile> = Vec::new();
    let md = "NAME: thing\nDEPS: @ghost\n";
    match Package::def("thing", md, &store, &files) {
        Err(FormError::Sets(SetError::SetNotFound { set })) => assert_eq!(set, "@ghost"),
        _ => panic!("expected the missing set to abort formation"),
    }
}

#[test]
fn install_state_merged_from_store() {
    let mut installed = record("tool", "2.0");
    installed.status = PackageStatus::Installed;
    installed.installed_version = "1.9".to_string();
    let store = vec![installed];
    let p = Package::def("tool", "NAME: tool\nVERS: 2.1\n", &store, &Vec::new()).unwrap();
    assert_eq!(p.version, "2.1");
    assert!(matches!(p.status, PackageStatus::Installed));
    assert_eq!(p.installed_version, "1.9");
}

#[test]
fn new_fetches_the_store_record() {
    let store = vec![record("a", "1"), record("b", "2")];
    let p = Package::new("b", &store).unwrap();
    assert_eq!(p.name, "b");
    assert_eq!(p.version, "2");
    assert!(Package::new("c", &store).is_none());
}

#[test]
fn name_version_display() {
    let p = record("gcc", "13.2");
    assert_eq!(p.name_version(), "gcc-13.2");
}

#[test]
fn sets_expand_even_against_an_empty_store() {
    let store: Vec<Package> = Vec::new();
    let files = vec![SetFile {
        name: "group".to_string(),
        lines: vec!["base".to_string(), "extra".to_string()],
    }];
    let md = "NAME: first\nDEPS: @group\n";
    let p = Package::def("first", md, &store, &files).unwrap();
    assert_eq!(p.deps, vec!["base".to_string(), "extra".to_string()]);
    assert!(p.deps.iter().all(|d| !d.contains('@')));
}
