//! The package manager facade and the utility helpers around it.

use rid::flags::set_flags;
use rid::linkval::{validate, worker_count};
use rid::options::{has_opts, split_opts};
use rid::package::{Package, PackageStatus};
use rid::pm::PM;
use rid::config::LinkvalConfig;
use rid::tracking::StoreError;
use rid::utils::{dedup, do_install, format_line, sort_packages};

fn pkg(name: &str, version: &str) -> Package {
    Package {
        deps: Vec::new(),
        description: String::new(),
        downloads: Vec::new(),
        installed_version: String::new(),
        link: String::new(),
        name: name.to_string(),
        news: String::new(),
        selector: String::new(),
        status: PackageStatus::Available,
        upstream: String::new(),
        version: version.to_string(),
        version_command: String::new(),
    }
}

fn names(v: &[Package]) -> Vec<String> {
    v.iter().map(|p| p.name.clone()).collect()
}

#[test]
fn flags_are_bundled() {
    let f = set_flags(true, false, true);
    assert!(f.force);
    assert!(!f.quiet);
    assert!(f.verbose);
}

#[test]
fn listing_is_sorted_and_checks_names() {
    let store = vec![pkg("zeta", "1"), pkg("alpha", "1")];
    let pm = PM::new(Vec::new(), store.clone(), set_flags(false, false, false));
    let listed = pm.list().unwrap();
    assert_eq!(names(&listed), vec!["alpha", "zeta"]);

    let pm = PM::new(vec![pkg("ghost", "1")], store, set_flags(false, false, false));
    match pm.list() {
        Err(StoreError::NotFound { name }) => assert_eq!(name, "ghost"),
        _ => panic!("expected the unknown package to be reported"),
    }
}

#[test]
fn outdated_picks_stale_installed_records() {
    let mut fresh = pkg("fresh", "2");
    fresh.installed_version = "2".to_string();
    let mut stale = pkg("stale", "2");
    stale.installed_version = "1".to_string();
    let never = pkg("never", "2");
    let pm = PM::new(
        Vec::new(),
        vec![fresh, stale, never],
        set_flags(false, false, false),
    );
    assert_eq!(names(&pm.outdated()), vec!["stale"]);
}

#[test]
fn install_plan_respects_force() {
    let mut done = pkg("done", "1");
    done.status = PackageStatus::Installed;
    let fresh = pkg("fresh", "1");
    let pm = PM::new(
        vec![done.clone(), fresh.clone()],
        Vec::new(),
        set_flags(false, false, false),
    );
    assert_eq!(names(&pm.install()), vec!["fresh"]);
    let pm = PM::new(vec![done, fresh], Vec::new(), set_flags(true, false, false));
    assert_eq!(names(&pm.install()), vec!["done", "fresh"]);
}

#[test]
fn update_plan_stops_at_up_to_date() {
    let mut a = pkg("a", "2");
    a.installed_version = "1".to_string();
    let mut b = pkg("b", "2");
    b.installed_version = "2".to_string();
    let mut c = pkg("c", "3");
    c.installed_version = "1".to_string();
    let pm = PM::new(vec![a, b, c], Vec::new(), set_flags(false, false, false));
    assert_eq!(names(&pm.update()), vec!["a"]);
}

#[test]
fn rolling_version_always_updates() {
    let mut rolling = pkg("rolling", "9999");
    rolling.installed_version = "9999".to_string();
    let pm = PM::new(vec![rolling], Vec::new(), set_flags(false, false, false));
    assert_eq!(names(&pm.update()), vec!["rolling"]);
}

#[test]
fn news_lists_packages_with_advisories() {
    let mut noisy = pkg("noisy", "1");
    noisy.news = "breaking change".to_string();
    let quiet = pkg("quiet", "1");
    let pm = PM::new(Vec::new(), vec![noisy, quiet], set_flags(false, false, false));
    assert_eq!(names(&pm.news()), vec!["noisy"]);
}

#[test]
fn removal_plan_carries_dependants() {
    let lib = pkg("lib", "1");
    let mut app = pkg("app", "1");
    app.deps = vec!["lib".to_string()];
    let store = vec![lib.clone(), app];
    let pm = PM::new(vec![lib], store, set_flags(false, false, false));
    let plan = pm.remove();
    assert_eq!(plan.len(), 1);
    assert_eq!(plan[0].0.name, "lib");
    assert_eq!(names(&plan[0].1), vec!["app"]);
}

#[test]
fn search_reports_three_lines_per_package() {
    let mut p = pkg("tool", "1.0");
    p.description = "does things".to_string();
    p.installed_version = "1.0".to_string();
    p.status = PackageStatus::Installed;
    let pm = PM::new(vec![p, pkg("next", "2")], Vec::new(), set_flags(false, false, false));
    let lines = pm.search();
    assert_eq!(lines[0], "tool-1.0");
    assert_eq!(lines[1], " - does things");
    assert_eq!(lines[2], " - Installed 1.0");
    assert_eq!(lines[3], "next-2");
    assert_eq!(lines[4], " - No description provided");
    assert_eq!(lines[5], " - Available");
    assert_eq!(lines.len(), 6);
}

#[test]
fn sorting_and_dedup_by_name() {
    let list = vec![pkg("b", "1"), pkg("a", "1"), pkg("b", "2")];
    let sorted = sort_packages(list.clone());
    assert_eq!(names(&sorted), vec!["a", "b", "b"]);
    let unique = dedup(list);
    assert_eq!(names(&unique), vec!["a", "b"]);
}

#[test]
fn install_decision() {
    let avail = pkg("a", "1");
    let mut inst = pkg("b", "1");
    inst.status = PackageStatus::Installed;
    assert!(do_install(&avail, false));
    assert!(!do_install(&inst, false));
    assert!(do_install(&inst, true));
}

#[test]
fn format_line_pads_and_colors() {
    let line = "gcc=13.2 ~ Installed";
    let out = format_line(line, 12);
    assert_eq!(out, "gcc=13.2    ~ \u{1b}[36;1mInstalled\u{1b}[0m");
    let avail = format_line("x=1 ~ Available", 5);
    assert_eq!(avail, "x=1  ~ \u{1b}[30mAvailable\u{1b}[0m");
    assert_eq!(format_line("no separator", 10), "no separator");
}

#[test]
fn option_tokens_split_off() {
    assert!(has_opts("pkg#opt"));
    assert!(!has_opts("pkg"));
    let (name, opts) = split_opts("pkg#a#b");
    assert_eq!(name, "pkg");
    assert_eq!(opts, vec!["a".to_string(), "b".to_string()]);
    let (name, opts) = split_opts("plain");
    assert_eq!(name, "plain");
    assert!(opts.is_empty());
}

#[test]
fn link_validation_plan() {
    let mut a = pkg("a", "1");
    a.link = "https://example.invalid/a.tar".to_string();
    a.downloads = vec!["https://example.invalid/a.sig".to_string(), String::new()];
    let b = pkg("b", "1");
    let cfg = LinkvalConfig { retry_count: 2, stack_size: 64, thread_count: 8 };
    let (urls, workers) = validate(&vec![a, b], &cfg);
    assert_eq!(
        urls,
        vec![
            "https://example.invalid/a.tar".to_string(),
            "https://example.invalid/a.sig".to_string(),
        ]
    );
    assert_eq!(workers, 2);
    assert_eq!(worker_count(8, 100), 8);
    assert_eq!(worker_count(8, 3), 3);
}

#[test]
fn snapshots_for_the_validators() {
    let store = vec![pkg("a", "1"), pkg("b", "1")];
    let pm = PM::new(Vec::new(), store, set_flags(false, false, false));
    assert_eq!(names(&pm.check_upstream()), vec!["a", "b"]);
    assert_eq!(names(&pm.validate_links()), vec!["a", "b"]);
    assert_eq!(names(&pm.get()), Vec::<String>::new());
}

#[test]
fn dependency_listings_end_with_their_package() {
    let mut a = pkg("a", "1");
    a.deps = vec!["b".to_string()];
    let b = pkg("b", "1");
    let store = vec![a.clone(), b];
    let pm = PM::new(vec![a], store, set_flags(false, false, false));
    let lists = pm.dependencies();
    assert_eq!(lists.len(), 1);
    assert_eq!(names(&lists[0]), vec!["b", "a"]);
}

#[test]
fn dependants_listing_direct_and_deep() {
    let core = pkg("core", "1");
    let mut lib = pkg("lib", "1");
    lib.deps = vec!["core".to_string()];
    let mut midware = pkg("mid", "1");
    midware.deps = vec!["lib".to_string()];
    let mut other = pkg("other", "1");
    other.deps = vec!["core".to_string()];
    let store = vec![core, lib.clone(), midware, other];
    let pm = PM::new(vec![lib.clone()], store.clone(), set_flags(false, false, false));
    let direct = pm.dependants();
    assert_eq!(names(&direct[0]), vec!["mid"]);
    // under force: the dependants of everything in lib's resolved order
    // (core and lib), deduplicated
    let pm = PM::new(vec![lib], store, set_flags(true, false, false));
    let deep = pm.dependants();
    assert_eq!(names(&deep[0]), vec!["lib", "mid", "other"]);
}

#[test]
fn install_with_dependencies_filters_each_group() {
    let mut base = pkg("base", "1");
    base.status = PackageStatus::Installed;
    let mut app = pkg("app", "1");
    app.deps = vec!["base".to_string()];
    let store = vec![base, app.clone()];
    let pm = PM::new(vec![app], store, set_flags(false, false, false));
    let groups = pm.install_with_dependencies();
    assert_eq!(groups.len(), 1);
    assert_eq!(names(&groups[0].0), vec!["base", "app"]);
    assert_eq!(names(&groups[0].1), vec!["app"]);
}

#[test]
fn update_with_dependencies_stops_at_up_to_date_dependency() {
    let mut fresh = pkg("fresh", "1");
    fresh.installed_version = "1".to_string();
    let mut top = pkg("top", "2");
    top.deps = vec!["fresh".to_string()];
    top.installed_version = "1".to_string();
    let store = vec![fresh, top.clone()];
    let pm = PM::new(vec![top], store, set_flags(false, false, false));
    let groups = pm.update_with_dependencies();
    // the first dependency is already up to date, so the batch stops there
    assert_eq!(groups.len(), 1);
    assert_eq!(names(&groups[0].0), vec!["fresh", "top"]);
    assert!(groups[0].1.is_empty());
}
