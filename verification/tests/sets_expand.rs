//! Set expansion: nested references, comments, the reserved reference, and
//! the cycle guard.

use rid::package::{Package, PackageStatus};
use rid::sets::{expand_set, handle_sets, is_comment, is_set, SetError, SetFile};

fn pkg(name: &str) -> Package {
    Package {
        deps: Vec::new(),
        description: String::new(),
        downloads: Vec::new(),
        installed_version: String::new(),
        link: String::new(),
        name: name.to_string(),
        news: String::new(),
        selector: String::new(),
        status: PackageStatus::Available,
        upstream: String::new(),
        version: "1".to_string(),
        version_command: String::new(),
    }
}

fn file(name: &str, lines: &[&str]) -> SetFile {
    SetFile { name: name.to_string(), lines: lines.iter().map(|l| l.to_string()).collect() }
}

#[test]
fn expansion_preserves_order_and_skips_comments() {
    let store = vec![pkg("foo"), pkg("qux"), pkg("baz")];
    let files = vec![
        file("myset", &["foo", "@bar", "# comment", "", "baz"]),
        file("bar", &["qux"]),
    ];
    let r = expand_set(&"@myset".to_string(), &store, &files, &Vec::new()).unwrap();
    assert_eq!(r, vec!["foo".to_string(), "qux".to_string(), "baz".to_string()]);
}

#[test]
fn all_reference_expands_to_every_package() {
    let store = vec![pkg("a"), pkg("b"), pkg("c")];
    let files: Vec<SetFile> = Vec::new();
    let r = expand_set(&"@all".to_string(), &store, &files, &Vec::new()).unwrap();
    assert_eq!(r, vec!["a".to_string(), "b".to_string(), "c".to_string()]);
}

#[test]
fn missing_set_is_fatal() {
    let store: Vec<Package> = Vec::new();
    let files: Vec<SetFile> = Vec::new();
    match expand_set(&"@ghost".to_string(), &store, &files, &Vec::new()) {
        Err(SetError::SetNotFound { set }) => assert_eq!(set, "@ghost"),
        _ => panic!("expected the missing set to be fatal"),
    }
}

#[test]
fn self_reference_is_a_cycle() {
    let store: Vec<Package> = Vec::new();
    let files = vec![file("loop", &["@loop"])];
    match expand_set(&"@loop".to_string(), &store, &files, &Vec::new()) {
        Err(SetError::CycleDetected { set }) => assert_eq!(set, "@loop"),
        _ => panic!("expected the self-reference to be reported as a cycle"),
    }
}

#[test]
fn indirect_cycle_is_detected() {
    let store: Vec<Package> = Vec::new();
    let files = vec![file("a", &["@b"]), file("b", &["@a"])];
    assert!(matches!(
        expand_set(&"@a".to_string(), &store, &files, &Vec::new()),
        Err(SetError::CycleDetected { .. })
    ));
}

#[test]
fn handle_sets_expands_in_place() {
    let store = vec![pkg("x"), pkg("y")];
    let files = vec![file("pair", &["x", "y"])];
    let toks = vec!["before".to_string(), "@pair".to_string(), "after".to_string()];
    let r = handle_sets(toks, &store, &files).unwrap();
    assert_eq!(
        r,
        vec!["before".to_string(), "x".to_string(), "y".to_string(), "after".to_string()]
    );
}

#[test]
fn set_and_comment_syntax() {
    assert!(is_set("@base"));
    assert!(is_set("extra@ref"));
    assert!(!is_set("plain"));
    assert!(is_comment(""));
    assert!(is_comment("   "));
    assert!(is_comment("# note"));
    assert!(is_comment("// note"));
    assert!(!is_comment("package"));
}
