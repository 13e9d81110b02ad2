//! The version comparator and upstream version discovery.

use rid::package::{Package, PackageStatus};
use rid::upstream::{
    check_upstream, clean_version_output, latest, parse_version, version_le_exec, vsort,
    UpstreamError, UpstreamReport,
};

fn pkg(name: &str, version: &str, upstream: &str, vcmd: &str) -> Package {
    Package {
        deps: Vec::new(),
        description: String::new(),
        downloads: Vec::new(),
        installed_version: String::new(),
        link: String::new(),
        name: name.to_string(),
        news: String::new(),
        selector: String::new(),
        status: PackageStatus::Available,
        upstream: upstream.to_string(),
        version: version.to_string(),
        version_command: vcmd.to_string(),
    }
}

fn lt(a: &str, b: &str) -> bool {
    version_le_exec(a, b) && !version_le_exec(b, a)
}

#[test]
fn comparator_orders_numeric_versions() {
    assert!(lt("1.2.0", "1.2.1"));
    assert!(lt("1.2.1", "1.3.0"));
    assert!(lt("1.3.0", "2.0.0"));
    assert!(lt("1.2.0", "2.0.0"));
}

#[test]
fn comparator_orders_release_candidates() {
    assert!(lt("1.2.0rc1", "1.2.0rc2"));
    assert!(lt("1.2.0rc2", "1.2.0"));
    assert!(lt("1.2.0rc1", "1.2.0"));
}

#[test]
fn stable_sorts_after_any_rc_of_same_prefix() {
    for rc in ["3.1.4rc1", "3.1.4rc2", "3.1.4rc99", "3.1.4.rc7"] {
        assert!(lt(rc, "3.1.4"));
    }
}

#[test]
fn parse_version_keys() {
    assert_eq!(parse_version("1.2.3"), (1, 2, 3, 0, u32::MAX));
    assert_eq!(parse_version("1.2.3.4"), (1, 2, 3, 4, u32::MAX));
    assert_eq!(parse_version("5"), (5, 0, 0, 0, u32::MAX));
    assert_eq!(parse_version("1.2.0rc1"), (1, 2, 0, 0, 1));
    assert_eq!(parse_version("1.2.0.rc2"), (1, 2, 0, 0, 2));
}

#[test]
fn parse_version_keeps_digits_of_mixed_components() {
    assert_eq!(parse_version("v1.2p3"), (1, 23, 0, 0, u32::MAX));
    assert_eq!(parse_version("release-7"), (7, 0, 0, 0, u32::MAX));
}

#[test]
fn vsort_filters_and_orders() {
    let input: Vec<String> = ["2.0", "1.0rc1", "0.9", "3.0alpha", "2.5beta", "1.5^{}", "1.2"]
        .iter()
        .map(|s| s.to_string())
        .collect();
    let sorted = vsort(input);
    assert_eq!(sorted, vec!["0.9".to_string(), "1.2".to_string(), "2.0".to_string()]);
}

#[test]
fn vsort_trims_entries() {
    let input: Vec<String> = ["  2.0  ", "1.0"].iter().map(|s| s.to_string()).collect();
    let sorted = vsort(input);
    assert_eq!(sorted, vec!["1.0".to_string(), "2.0".to_string()]);
}

#[test]
fn latest_picks_maximum_tag() {
    let p = pkg("zlib", "1.2", "https://example.invalid/zlib.git", "");
    let tags: Vec<String> = [
        "abc\trefs/tags/v1.2.11",
        "def\trefs/tags/v1.2.13",
        "ghi\trefs/tags/v1.3",
        "jkl\trefs/tags/v1.3rc1",
    ]
        .iter()
        .map(|s| s.to_string())
        .collect();
    let r = latest(&p, &tags).unwrap();
    assert_eq!(r, "1.3");
}

#[test]
fn latest_strips_name_and_separators() {
    let p = pkg("tool", "1.0", "somewhere", "");
    let tags: Vec<String> = ["refs/tags/tool_1_4", "refs/tags/tool_1_10"]
        .iter()
        .map(|s| s.to_string())
        .collect();
    let r = latest(&p, &tags).unwrap();
    assert_eq!(r, "1.10");
}

#[test]
fn latest_without_upstream_is_not_applicable() {
    let p = pkg("local", "1.0", "", "");
    let tags: Vec<String> = Vec::new();
    assert_eq!(latest(&p, &tags), Err(UpstreamError::EmptyUpstream));
}

#[test]
fn latest_without_candidates_fails() {
    let p = pkg("odd", "1.0", "somewhere", "");
    let tags: Vec<String> = vec!["refs/tags/1.0rc1".to_string()];
    assert_eq!(latest(&p, &tags), Err(UpstreamError::NoVersionsFound));
}

#[test]
fn version_command_output_is_cleaned() {
    assert_eq!(clean_version_output(" v1.2.3^{}\n"), "1.2.3");
    assert_eq!(clean_version_output("2.0"), "2.0");
}

#[test]
fn upstream_check_classification() {
    let p = pkg("a", "1.0", "up", "");
    assert!(matches!(check_upstream(&p, Ok("1.0".to_string())), UpstreamReport::Current));
    match check_upstream(&p, Ok("1.1".to_string())) {
        UpstreamReport::Outdated { latest } => assert_eq!(latest, "1.1"),
        _ => panic!("expected an outdated report"),
    }
    assert!(matches!(
        check_upstream(&p, Err(UpstreamError::EmptyUpstream)),
        UpstreamReport::Skipped
    ));
    assert!(matches!(
        check_upstream(&p, Err(UpstreamError::NoVersionsFound)),
        UpstreamReport::Failed
    ));
}

#[test]
fn bare_rc_marker_is_normalized() {
    // "1.2rc3" and "1.2.rc3" carry the same key
    assert_eq!(parse_version("1.2rc3"), parse_version("1.2.rc3"));
    assert_eq!(parse_version("1.2rc3").4, 3);
}

#[test]
fn unparseable_rc_ordinal_counts_as_zero() {
    assert_eq!(parse_version("1.2.rcX").4, 0);
    assert!(lt("1.2.rcX", "1.2rc1"));
}
