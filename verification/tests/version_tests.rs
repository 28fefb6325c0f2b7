use check_updates::version::{
    build_new_req, colorize_req, current_version, highlight_start, try_build_new_req, is_version_yanked, resolve_version,
    version_bump, VersionBump, VersionStrategy,
};
use check_updates::PackageVersion;
use check_updates::SemReq as VersionReq;
use check_updates::SemVersion as Version;

fn pv(v: &str, yanked: bool) -> PackageVersion {
    PackageVersion {
        version: Version::parse(v).unwrap(),
        yanked,
        features: Default::default(),
        rust_version: None,
    }
}

#[test]
fn test_version_bump_major() {
    let from = Version::parse("1.2.3").unwrap();
    let to = Version::parse("2.0.0").unwrap();
    assert_eq!(version_bump(&from, &to), VersionBump::Major);
}

#[test]
fn test_version_bump_major_zero() {
    let from = Version::parse("0.1.0").unwrap();
    let to = Version::parse("0.2.0").unwrap();
    assert_eq!(version_bump(&from, &to), VersionBump::Major);
}

#[test]
fn test_version_bump_minor() {
    let from = Version::parse("1.2.3").unwrap();
    let to = Version::parse("1.3.0").unwrap();
    assert_eq!(version_bump(&from, &to), VersionBump::Minor);
}

#[test]
fn test_version_bump_patch() {
    let from = Version::parse("1.2.3").unwrap();
    let to = Version::parse("1.2.5").unwrap();
    assert_eq!(version_bump(&from, &to), VersionBump::Patch);

    let from = Version::parse("0.2.3").unwrap();
    let to = Version::parse("0.2.5").unwrap();
    assert_eq!(version_bump(&from, &to), VersionBump::Patch);
}

#[test]
fn test_current_version_caret() {
    let req: VersionReq = "^1.2.3".parse().unwrap();
    assert_eq!(current_version(&req), Some(Version::parse("1.2.3").unwrap()));
}

#[test]
fn test_current_version_tilde() {
    let req: VersionReq = "~0.4.0".parse().unwrap();
    assert_eq!(current_version(&req), Some(Version::parse("0.4.0").unwrap()));
}

#[test]
fn test_current_version_gte() {
    let req: VersionReq = ">=1.0.0".parse().unwrap();
    assert_eq!(current_version(&req), Some(Version::parse("1.0.0").unwrap()));
}

#[test]
fn test_build_new_req_caret() {
    let old: VersionReq = "^1.2.3".parse().unwrap();
    let new_ver = Version::parse("2.0.0").unwrap();
    let result = build_new_req(&old, &new_ver);
    assert_eq!(result.to_string(), "^2.0.0");
}

#[test]
fn test_build_new_req_tilde() {
    let old: VersionReq = "~1.2.3".parse().unwrap();
    let new_ver = Version::parse("1.3.0").unwrap();
    let result = build_new_req(&old, &new_ver);
    assert_eq!(result.to_string(), "~1.3.0");
}

#[test]
fn test_build_new_req_bare_major() {
    let old: VersionReq = "1".parse().unwrap();
    let new_ver = Version::parse("2.3.4").unwrap();
    let result = build_new_req(&old, &new_ver);
    assert_eq!(result.to_string(), "^2");
}

#[test]
fn test_build_new_req_bare_major_minor() {
    let old: VersionReq = "1.2".parse().unwrap();
    let new_ver = Version::parse("2.3.4").unwrap();
    let result = build_new_req(&old, &new_ver);
    assert_eq!(result.to_string(), "^2.3");
}

#[test]
fn test_is_version_yanked_true() {
    let versions = vec![pv("1.2.3", true)];
    let current = Version::parse("1.2.3").unwrap();
    assert!(is_version_yanked(&versions, Some(&current)));
}

#[test]
fn test_is_version_yanked_false() {
    let versions = vec![pv("1.2.3", false)];
    let current = Version::parse("1.2.3").unwrap();
    assert!(!is_version_yanked(&versions, Some(&current)));
}

#[test]
fn test_resolve_version_latest() {
    let versions = vec![pv("1.0.0", false), pv("2.0.0", false), pv("3.0.0-alpha.1", false)];
    let req: VersionReq = "^1.0.0".parse().unwrap();
    let strategy = VersionStrategy { compatible: false, pre: false };
    assert_eq!(
        resolve_version(&versions, &req, &strategy, None),
        Some(Version::parse("2.0.0").unwrap())
    );
}

#[test]
fn test_resolve_version_compatible() {
    let versions = vec![pv("1.0.0", false), pv("1.5.0", false), pv("2.0.0", false)];
    let req: VersionReq = "^1.0.0".parse().unwrap();
    let strategy = VersionStrategy { compatible: true, pre: false };
    assert_eq!(
        resolve_version(&versions, &req, &strategy, None),
        Some(Version::parse("1.5.0").unwrap())
    );
}

#[test]
fn test_resolve_version_skips_yanked() {
    let versions = vec![pv("1.0.0", false), pv("2.0.0", true)];
    let req: VersionReq = "^1.0.0".parse().unwrap();
    let strategy = VersionStrategy { compatible: false, pre: false };
    assert_eq!(
        resolve_version(&versions, &req, &strategy, None),
        Some(Version::parse("1.0.0").unwrap())
    );
}

#[test]
fn test_resolve_version_with_pre() {
    let versions = vec![pv("1.0.0", false), pv("2.0.0-alpha.1", false)];
    let req: VersionReq = "^1.0.0".parse().unwrap();
    let strategy = VersionStrategy { compatible: false, pre: true };
    assert_eq!(
        resolve_version(&versions, &req, &strategy, None),
        Some(Version::parse("2.0.0-alpha.1").unwrap())
    );
}

#[test]
fn test_resolve_version_current_prerelease_without_pre_flag() {
    let versions = vec![pv("1.0.0-alpha.1", false), pv("1.0.0-alpha.2", false), pv("1.0.1-alpha.1", false)];
    let req: VersionReq = "^1.0.0-alpha.1".parse().unwrap();
    let strategy = VersionStrategy { compatible: false, pre: false };
    assert_eq!(
        resolve_version(&versions, &req, &strategy, Some(&Version::parse("1.0.0-alpha.1").unwrap())),
        Some(Version::parse("1.0.0-alpha.2").unwrap())
    );
}

#[test]
fn test_build_new_req_keeps_full_prerelease() {
    let old: VersionReq = "^1.0.0-alpha.1".parse().unwrap();
    let new_ver = Version::parse("1.0.0-beta.2").unwrap();
    let result = build_new_req(&old, &new_ver);
    assert_eq!(result.to_string(), "^1.0.0-beta.2");

    let old: VersionReq = "=1.0.0-alpha.1".parse().unwrap();
    let result = build_new_req(&old, &new_ver);
    assert_eq!(result.to_string(), "=1.0.0-beta.2");
}

#[test]
fn test_version_bump_prerelease_is_breaking() {
    let from = Version::parse("1.0.0-alpha.1").unwrap();
    let to = Version::parse("1.0.0-beta.1").unwrap();
    assert_eq!(version_bump(&from, &to), VersionBump::Major);

    let to = Version::parse("1.0.0").unwrap();
    assert_eq!(version_bump(&from, &to), VersionBump::Major);
}

#[test]
fn test_caret_one_req() {
    let req: VersionReq = "^1".parse().unwrap();
    assert_eq!(req.to_string(), "^1");
    assert!(req.matches(&Version::parse("1.3.1").unwrap()));
    assert!(!req.matches(&Version::parse("0.2.5").unwrap()));
}

#[test]
fn test_bare_version_req() {
    // Bare "1" gets normalized to "^1" by semver crate
    let req: VersionReq = "1".parse().unwrap();
    assert_eq!(req.to_string(), "^1");

    // Bare "1.2" gets normalized to "^1.2"
    let req: VersionReq = "1.2".parse().unwrap();
    assert_eq!(req.to_string(), "^1.2");
}

#[test]
fn test_build_new_req_complex_chain_is_unchanged() {
    let old: VersionReq = ">=1.0, <2.0".parse().unwrap();
    let new_ver = Version::parse("3.4.5").unwrap();
    let result = build_new_req(&old, &new_ver);
    assert_eq!(result.to_string(), old.to_string());
}

#[test]
fn colorize_keeps_unchanged_requirement() {
    assert_eq!(colorize_req("^1.2.3", "^1.2.3", VersionBump::Patch), "^1.2.3");
}

#[test]
fn colorize_keeps_prefix_before_changed_part() {
    let out = colorize_req("^1.2.3", "^1.3.0", VersionBump::Minor);
    assert!(out.starts_with("^1."));
    assert!(out.contains("3.0"));
    let out = colorize_req("^1.2.3", "^1.2.9", VersionBump::Patch);
    assert!(out.starts_with("^1.2."));
    let out = colorize_req("~1.2.3", "~2.0.0", VersionBump::Major);
    assert!(out.starts_with("~"));
    assert!(out.contains("2.0.0"));
}

#[test]
fn highlight_points_at_first_changed_component() {
    assert_eq!(highlight_start("^1.2.3", "^2.0.0"), Some(1));
    assert_eq!(highlight_start("^1.2.3", "^1.3.0"), Some(3));
    assert_eq!(highlight_start("^1.2.3", "^1.2.4"), Some(5));
    assert_eq!(highlight_start("^1.2.3", "^1.2.3"), None);
    assert_eq!(highlight_start("^1", "^1.2"), Some(3));
}

#[test]
fn build_new_req_three_components_and_ops() {
    let old: VersionReq = ">=0.4.1".parse().unwrap();
    let new_ver = Version::parse("0.5.2").unwrap();
    assert_eq!(build_new_req(&old, &new_ver).to_string(), ">=0.5.2");
    let old: VersionReq = "=1.2".parse().unwrap();
    assert_eq!(build_new_req(&old, &new_ver).to_string(), "=0.5");
}

#[test]
fn try_build_new_req_gives_the_same_requirement() {
    let old: VersionReq = "^1.2.3".parse().unwrap();
    let new_ver = Version::parse("2.0.0").unwrap();
    assert_eq!(try_build_new_req(&old, &new_ver).unwrap().to_string(), "^2.0.0");
}

#[test]
fn resolve_version_none_when_nothing_eligible() {
    let versions = vec![pv("2.0.0", true), pv("3.0.0-rc.1", false)];
    let req: VersionReq = "^1.0.0".parse().unwrap();
    let strategy = VersionStrategy { compatible: false, pre: false };
    assert_eq!(resolve_version(&versions, &req, &strategy, None), None);
    assert!(!is_version_yanked(&versions, None));
}

#[test]
fn version_order_follows_semver_precedence() {
    let a = Version::parse("1.0.0-alpha").unwrap();
    let b = Version::parse("1.0.0").unwrap();
    let c = Version::parse("1.0.0-alpha.1").unwrap();
    assert_eq!(a.order(&b), -1);
    assert_eq!(b.order(&a), 1);
    assert_eq!(a.order(&c), -1);
    assert_eq!(b.order(&b.copy()), 0);
    assert_eq!(Version::parse("1.2.3-beta+b5").unwrap().to_string(), "1.2.3-beta+b5");
    assert!(Version::parse("01.2.3").is_err());
}

#[test]
fn colorize_paints_the_change_in_the_bump_color() {
    console::set_colors_enabled(true);
    assert_eq!(colorize_req("^1.2.3", "^1.3.0", VersionBump::Minor), "^1.\u{1b}[36m3.0\u{1b}[0m");
    assert_eq!(colorize_req("^1.2.3", "^2.0.0", VersionBump::Major), "^\u{1b}[31m2.0.0\u{1b}[0m");
    assert_eq!(colorize_req("^1.2.3", "^1.2.5", VersionBump::Patch), "^1.2.\u{1b}[32m5\u{1b}[0m");
    assert_eq!(colorize_req("^1.2.3", "^1.2.3", VersionBump::Patch), "^1.2.3");
    console::set_colors_enabled(false);
}
