//! Store serialization: a saved store reloads into identical records.

use rid::codec::{load_pkglist, save_pkglist};
use rid::package::{Package, PackageStatus};

fn sample(name: &str, status: PackageStatus) -> Package {
    Package {
        deps: vec!["dep one".to_string(), "dep:two".to_string()],
        description: "a package, with: punctuation\nand a second line".to_string(),
        downloads: vec!["https://example.invalid/x.tar".to_string(), String::new()],
        installed_version: "1.2".to_string(),
        link: "https://example.invalid/a-1.2.tar".to_string(),
        name: name.to_string(),
        news: "watch out: 3:4:5 colons \"quoted\"".to_string(),
        selector: String::new(),
        status,
        upstream: "https://example.invalid/repo.git".to_string(),
        version: "1.3".to_string(),
        version_command: "echo v1.3".to_string(),
    }
}

fn same(a: &Package, b: &Package) -> bool {
    a.deps == b.deps && a.description == b.description && a.downloads == b.downloads
        && a.installed_version == b.installed_version && a.link == b.link && a.name == b.name
        && a.news == b.news && a.selector == b.selector
        && format!("{:?}", a.status) == format!("{:?}", b.status) && a.upstream == b.upstream
        && a.version == b.version && a.version_command == b.version_command
}

#[test]
fn roundtrip_keeps_every_field() {
    let store = vec![
        sample("alpha", PackageStatus::Installed),
        sample("beta", PackageStatus::Available),
        sample("gamma", PackageStatus::Removed),
    ];
    let text = save_pkglist(&store);
    let back = load_pkglist(&text).expect("a saved store must reload");
    assert_eq!(back.len(), store.len());
    for (a, b) in store.iter().zip(back.iter()) {
        assert!(same(a, b));
    }
}

#[test]
fn roundtrip_of_empty_store() {
    let store: Vec<Package> = Vec::new();
    let text = save_pkglist(&store);
    let back = load_pkglist(&text).expect("an empty store must reload");
    assert!(back.is_empty());
}

#[test]
fn garbage_does_not_load() {
    assert!(load_pkglist("").is_none());
    assert!(load_pkglist("hello").is_none());
    assert!(load_pkglist("3:").is_none());
    assert!(load_pkglist("1:").is_none());
}

#[test]
fn trailing_text_is_rejected() {
    let store: Vec<Package> = Vec::new();
    let mut text = save_pkglist(&store);
    text.push('x');
    assert!(load_pkglist(&text).is_none());
}

#[test]
fn unicode_contents_survive() {
    let mut p = sample("unicode", PackageStatus::Available);
    p.description = "größe – 測試 ✓".to_string();
    let store = vec![p];
    let text = save_pkglist(&store);
    let back = load_pkglist(&text).unwrap();
    assert_eq!(back[0].description, "größe – 測試 ✓");
}

#[test]
fn serialized_records_carry_field_names() {
    let store = vec![sample("alpha", PackageStatus::Installed)];
    let text = save_pkglist(&store);
    assert!(text.contains("name5:alpha"));
    assert!(text.contains("version3:1.3"));
    assert!(text.contains("installed_version3:1.2"));
    assert!(text.contains("statusI"));
    for label in [
        "link", "downloads", "upstream", "selector", "version_command", "news", "deps",
        "description",
    ] {
        assert!(text.contains(label));
    }
}
