//! Dependency resolution scenarios.

use rid::package::{Package, PackageStatus};
use rid::resolve::{confirm_removal, deep_dependants, find_dependants, resolve_deps};

fn pkg(name: &str, deps: &[&str]) -> Package {
    Package {
        deps: deps.iter().map(|d| d.to_string()).collect(),
        description: String::new(),
        downloads: Vec::new(),
        installed_version: String::new(),
        link: String::new(),
        name: name.to_string(),
        news: String::new(),
        selector: String::new(),
        status: PackageStatus::Available,
        upstream: String::new(),
        version: "1.0".to_string(),
        version_command: String::new(),
    }
}

fn names(v: &[Package]) -> Vec<String> {
    v.iter().map(|p| p.name.clone()).collect()
}

#[test]
fn end_to_end_order() {
    let store = vec![pkg("A", &["B", "C"]), pkg("B", &["C"]), pkg("C", &[])];
    let a = store[0].clone();
    let r = resolve_deps(&a, &store);
    assert_eq!(names(&r), vec!["C", "B", "A"]);
}

#[test]
fn diamond_resolved_once() {
    let store = vec![
        pkg("A", &["B", "C"]),
        pkg("B", &["D"]),
        pkg("C", &["D"]),
        pkg("D", &[]),
    ];
    let a = store[0].clone();
    let r = resolve_deps(&a, &store);
    assert_eq!(names(&r), vec!["D", "B", "C", "A"]);
    let count = r.iter().filter(|p| p.name == "D").count();
    assert_eq!(count, 1);
}

#[test]
fn deep_chain_completeness() {
    let store = vec![
        pkg("top", &["mid"]),
        pkg("mid", &["base"]),
        pkg("base", &[]),
        pkg("other", &[]),
    ];
    let top = store[0].clone();
    let r = resolve_deps(&top, &store);
    assert_eq!(names(&r), vec!["base", "mid", "top"]);
}

#[test]
fn package_without_record_is_its_own_order() {
    let store = vec![pkg("B", &[])];
    let lone = pkg("X", &["B"]);
    let r = resolve_deps(&lone, &store);
    assert_eq!(names(&r), vec!["B", "X"]);
}

#[test]
fn cyclic_graph_terminates() {
    let store = vec![pkg("A", &["B"]), pkg("B", &["A"])];
    let a = store[0].clone();
    let r = resolve_deps(&a, &store);
    assert_eq!(r.last().unwrap().name, "A");
}

#[test]
fn unknown_dependency_skipped() {
    let store = vec![pkg("A", &["ghost"])];
    let a = store[0].clone();
    let r = resolve_deps(&a, &store);
    assert_eq!(names(&r), vec!["A"]);
}

#[test]
fn direct_dependants_found() {
    let store = vec![pkg("lib", &[]), pkg("app1", &["lib"]), pkg("app2", &["lib"]), pkg("other", &[])];
    let lib = store[0].clone();
    let d = find_dependants(&lib, &store);
    assert_eq!(names(&d), vec!["app1", "app2"]);
}

#[test]
fn dependant_excludes_self_reference() {
    let store = vec![pkg("selfish", &["selfish"]), pkg("user", &["selfish"])];
    let s = store[0].clone();
    let d = find_dependants(&s, &store);
    assert_eq!(names(&d), vec!["user"]);
}

#[test]
fn deep_dependants_deduplicated() {
    let store = vec![
        pkg("a", &[]),
        pkg("b", &[]),
        pkg("u", &["a", "b"]),
        pkg("v", &["b"]),
    ];
    let targets = vec![store[0].clone(), store[1].clone()];
    let d = deep_dependants(&targets, &store);
    assert_eq!(names(&d), vec!["u", "v"]);
}

#[test]
fn removal_confirmation_rules() {
    let store = vec![pkg("lib", &[]), pkg("app", &["lib"])];
    let lib = store[0].clone();
    let app = store[1].clone();
    assert!(!confirm_removal(&lib, &store, false));
    assert!(confirm_removal(&lib, &store, true));
    assert!(confirm_removal(&app, &store, false));
}
