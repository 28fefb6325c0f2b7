use check_updates::update::{hyperlink, normalize_repo_url, unit_matches_filter, matches_filter};
use check_updates::update::{format_update_line, resolve_updates, summary_lines, Update};
use check_updates::registry::group_packages;
use check_updates::{PackageVersion, SemVersion, VersionStrategy};
use check_updates::{DepKind, Package, Purl, SemReq, Unit, Usage, VersionBump};

#[test]
fn normalize_git_ssh() {
    assert_eq!(normalize_repo_url("git@github.com:user/repo"), "https://github.com/user/repo");
}

#[test]
fn normalize_git_protocol() {
    assert_eq!(normalize_repo_url("git://github.com/user/repo"), "https://github.com/user/repo");
}

#[test]
fn normalize_strip_git_suffix() {
    assert_eq!(normalize_repo_url("https://github.com/user/repo.git"), "https://github.com/user/repo");
}

#[test]
fn normalize_http_to_https() {
    assert_eq!(normalize_repo_url("http://github.com/user/repo"), "https://github.com/user/repo");
}

#[test]
fn normalize_https_unchanged() {
    assert_eq!(normalize_repo_url("https://github.com/user/repo"), "https://github.com/user/repo");
}

#[test]
fn normalize_trims_and_keeps_unknown_forms() {
    assert_eq!(normalize_repo_url("  git@host:a/b.git \n"), "https://host/a/b");
    assert_eq!(normalize_repo_url("git@host"), "git@host");
    assert_eq!(normalize_repo_url("ftp://x/y"), "ftp://x/y");
}

#[test]
fn hyperlink_wraps_text() {
    assert_eq!(hyperlink("https://a", "t"), "\x1b]8;;https://a\x1b\\t\x1b]8;;\x1b\\");
}

#[test]
fn filters_select_units() {
    let p = Unit::Project { manifest: "/w/a/Cargo.toml".to_string(), name: "a".to_string() };
    let w = Unit::Workspace { manifest: "/w/demo/Cargo.toml".to_string() };
    assert!(unit_matches_filter(&p, "a"));
    assert!(!unit_matches_filter(&p, "b"));
    assert!(unit_matches_filter(&w, "workspace"));
    assert!(unit_matches_filter(&w, "demo"));
    assert!(!unit_matches_filter(&w, "a"));
    assert!(unit_matches_filter(&Unit::Global, "global"));
    assert!(matches_filter(&[], &p));
    assert!(matches_filter(&["x".to_string(), "a".to_string()], &p));
    assert!(!matches_filter(&["x".to_string()], &p));
}

#[test]
fn unit_names() {
    let w = Unit::Workspace { manifest: "/w/demo/Cargo.toml".to_string() };
    assert_eq!(w.name(), "demo (workspace)");
    assert_eq!(Unit::Global.name(), "global");
    assert_eq!(w.path(), Some("/w/demo/Cargo.toml"));
    assert_eq!(Unit::Global.path(), None);
}

fn plain_package(name: &str, unit: Unit, req: &str) -> Package {
    Package {
        purl: Purl::new("cargo", name).unwrap(),
        usages: vec![Usage { unit, req: SemReq::parse(req).unwrap(), kind: DepKind::Normal, rename: None }],
        versions: Vec::new(),
        repository: None,
        homepage: None,
    }
}

#[test]
fn update_line_is_padded_and_marked() {
    console::set_colors_enabled(false);
    let p = plain_package("serde", Unit::Global, "1.0");
    let new_req = SemReq::parse("2.0").unwrap();
    let u = Update {
        name: "serde",
        current_req: &p.usages[0].req,
        new_req: new_req.copy(),
        bump: VersionBump::Major,
        yanked: false,
        usage: &p.usages[0],
        package: &p,
    };
    assert_eq!(format_update_line(&u, 8, 6, 6), " serde       ^1.0  \u{2192}    ^2.0");
    let y = Update { yanked: true, new_req: new_req.copy(), ..u };
    assert_eq!(format_update_line(&y, 5, 0, 0), " serde  ^1.0 (yanked)  \u{2192}  ^2.0");
}

#[test]
fn summary_names_units_only_when_there_are_several() {
    console::set_colors_enabled(false);
    let a = Unit::Project { manifest: "/w/a/Cargo.toml".to_string(), name: "a".to_string() };
    let b = Unit::Project { manifest: "/w/b/Cargo.toml".to_string(), name: "b".to_string() };
    let p = plain_package("log", a.clone(), "0.3");
    let new_req = SemReq::parse("0.4").unwrap();
    let u = || Update {
        name: "log",
        current_req: &p.usages[0].req,
        new_req: new_req.copy(),
        bump: VersionBump::Minor,
        yanked: false,
        usage: &p.usages[0],
        package: &p,
    };
    assert_eq!(summary_lines(&Vec::new()), vec!["No packages need version requirement updates.".to_string()]);
    let one = summary_lines(&vec![(&a, vec![u()])]);
    assert_eq!(one, vec![" log  ^0.3  \u{2192}  ^0.4".to_string()]);
    let two = summary_lines(&vec![(&a, vec![u()]), (&b, vec![u()])]);
    assert_eq!(
        two,
        vec![
            "a".to_string(),
            " log  ^0.3  \u{2192}  ^0.4".to_string(),
            String::new(),
            "b".to_string(),
            " log  ^0.3  \u{2192}  ^0.4".to_string(),
        ]
    );
}

fn published(name: &str, units: Vec<Unit>) -> Package {
    Package {
        purl: Purl::new("cargo", name).unwrap(),
        usages: units
            .into_iter()
            .map(|unit| Usage { unit, req: SemReq::parse("1.0").unwrap(), kind: DepKind::Normal, rename: None })
            .collect(),
        versions: ["1.0.0", "2.0.0"]
            .iter()
            .map(|v| PackageVersion {
                version: SemVersion::parse(v).unwrap(),
                yanked: false,
                features: Vec::new(),
                rust_version: None,
            })
            .collect(),
        repository: None,
        homepage: None,
    }
}

#[test]
fn updates_come_in_unit_order_and_name_order() {
    let a = Unit::Project { manifest: "/w/a/Cargo.toml".to_string(), name: "a".to_string() };
    let b = Unit::Project { manifest: "/w/b/Cargo.toml".to_string(), name: "b".to_string() };
    let ws = Unit::Workspace { manifest: "/w/Cargo.toml".to_string() };
    let packages = group_packages(vec![
        published("zeta", vec![b.clone(), a.clone()]),
        published("alpha", vec![b.clone(), Unit::Global]),
        published("mid", vec![ws.clone()]),
    ]);
    let updates = resolve_updates(&packages, &VersionStrategy::from_args(false, false), &[]);
    let shape: Vec<(Unit, Vec<String>)> = updates
        .iter()
        .map(|(unit, us)| ((*unit).clone(), us.iter().map(|u| u.name.to_string()).collect()))
        .collect();
    assert_eq!(
        shape,
        vec![
            (ws, vec!["mid".to_string()]),
            (a, vec!["zeta".to_string()]),
            (b, vec!["alpha".to_string(), "zeta".to_string()]),
            (Unit::Global, vec!["alpha".to_string()]),
        ]
    );
    for (_, us) in &updates {
        for u in us {
            assert_eq!(u.new_req.to_string(), "^2.0");
            assert_eq!(u.bump, VersionBump::Major);
        }
    }
    let only_b = resolve_updates(&packages, &VersionStrategy::from_args(false, false), &["b".to_string()]);
    assert_eq!(only_b.len(), 1);
    assert_eq!(only_b[0].1.len(), 2);
}

#[test]
fn package_urls_check_their_type_and_name() {
    let p = Purl::new("Cargo", "serde").unwrap();
    assert_eq!(p.package_type(), "cargo");
    assert_eq!(p.name(), "serde");
    assert!(Purl::new("cargo", "").is_none());
    assert!(Purl::new("1cargo", "serde").is_none());
    assert!(Purl::new("", "serde").is_none());
}

#[test]
fn workspace_directory_names() {
    assert_eq!(check_updates::package::workspace_root_name(""), None);
    assert_eq!(check_updates::package::workspace_root_name("Cargo.toml"), None);
    assert_eq!(check_updates::package::workspace_root_name("/w/demo/Cargo.toml"), Some("demo".to_string()));
    assert_eq!(Unit::Workspace { manifest: "Cargo.toml".to_string() }.name(), "workspace");
}

#[test]
fn workspace_filters_name_its_directory_only() {
    let w = Unit::Workspace { manifest: "/r/ws/Cargo.toml".to_string() };
    assert_eq!(w.name(), "ws (workspace)");
    assert!(unit_matches_filter(&w, "ws"));
    assert!(unit_matches_filter(&w, "workspace"));
    assert!(!unit_matches_filter(&w, "app"));
    assert!(!unit_matches_filter(&w, "r"));
    assert!(matches_filter(&["app".to_string(), "ws".to_string()], &w));
    assert!(!matches_filter(&["app".to_string()], &w));
}
