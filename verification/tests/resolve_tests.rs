use check_updates::resolve::{
    index_step, IndexAnswer, IndexStep, crate_meta_from_packages, dep_kind_of, is_crates_io, registry_crate_names, resolve_packages,
    versions_from_entries, workspace_inherited_deps, workspace_members, IndexVersion, MetaDepKind,
    MetaDependency, MetaPackage, Metadata,
};
use check_updates::{DepKind, RegistryCachePolicy, SemReq, SemVersion, Unit};

const CRATES_IO: &str = "registry+https://github.com/rust-lang/crates.io-index";

fn dep(name: &str, source: Option<&str>, req: &str, kind: MetaDepKind, rename: Option<&str>, target: Option<&str>) -> MetaDependency {
    MetaDependency {
        name: name.to_string(),
        source: source.map(|s| s.to_string()),
        req: SemReq::parse(req).unwrap(),
        kind,
        rename: rename.map(|s| s.to_string()),
        target: target.map(|s| s.to_string()),
    }
}

fn pkg(id: &str, name: &str, version: &str, source: Option<&str>, manifest: &str, repo: Option<&str>, deps: Vec<MetaDependency>) -> MetaPackage {
    MetaPackage {
        id: id.to_string(),
        name: name.to_string(),
        version: SemVersion::parse(version).unwrap(),
        source: source.map(|s| s.to_string()),
        manifest_path: manifest.to_string(),
        repository: repo.map(|s| s.to_string()),
        homepage: None,
        dependencies: deps,
    }
}

fn entry(version: &str, yanked: bool, rust_version: Option<&str>) -> IndexVersion {
    IndexVersion {
        version: version.to_string(),
        yanked,
        features: Vec::new(),
        rust_version: rust_version.map(|s| s.to_string()),
    }
}

fn sample_metadata() -> Metadata {
    let app = pkg(
        "app-id",
        "app",
        "0.1.0",
        None,
        "/ws/app/Cargo.toml",
        None,
        vec![
            dep("serde", Some(CRATES_IO), "1.0", MetaDepKind::Normal, None, None),
            dep("util", None, "*", MetaDepKind::Normal, None, None),
            dep("log", Some(CRATES_IO), "0.4", MetaDepKind::Development, None, None),
        ],
    );
    let util = pkg(
        "util-id",
        "util",
        "0.1.0",
        None,
        "/ws/util/Cargo.toml",
        None,
        vec![dep("serde", Some(CRATES_IO), "^1.0.100", MetaDepKind::Normal, None, None)],
    );
    let serde_old = pkg("serde-1.0.0", "serde", "1.0.0", Some(CRATES_IO), "/reg/serde-1.0.0/Cargo.toml", Some("old"), vec![]);
    let serde_new = pkg("serde-1.0.200", "serde", "1.0.200", Some(CRATES_IO), "/reg/serde-1.0.200/Cargo.toml", Some("new"), vec![]);
    Metadata {
        packages: vec![serde_old, app, util, serde_new],
        workspace_members: vec!["app-id".to_string(), "util-id".to_string()],
        workspace_root: "/ws".to_string(),
    }
}

#[test]
fn crates_io_source_is_recognised() {
    assert!(is_crates_io(&Some(CRATES_IO.to_string())));
    assert!(!is_crates_io(&Some("git+https://github.com/a/b".to_string())));
    assert!(!is_crates_io(&None));
}

#[test]
fn dependency_kinds_map_to_sections() {
    assert_eq!(dep_kind_of(MetaDepKind::Normal), DepKind::Normal);
    assert_eq!(dep_kind_of(MetaDepKind::Development), DepKind::Dev);
    assert_eq!(dep_kind_of(MetaDepKind::Build), DepKind::Build);
    assert_eq!(dep_kind_of(MetaDepKind::Unknown), DepKind::Normal);
}

#[test]
fn unparsable_versions_are_left_out() {
    let out = versions_from_entries(vec![
        entry("1.0.0", false, Some("1.70.0")),
        entry("not-a-version", false, None),
        entry("1.2.0-beta.1", true, Some("1.70")),
    ]);
    assert_eq!(out.len(), 2);
    assert_eq!(out[0].version.to_string(), "1.0.0");
    assert!(!out[0].yanked);
    assert_eq!(out[0].rust_version.as_ref().map(|v| v.to_string()), Some("1.70.0".to_string()));
    assert_eq!(out[1].version.to_string(), "1.2.0-beta.1");
    assert!(out[1].yanked);
    assert!(out[1].rust_version.is_none());
}

#[test]
fn members_are_found_in_order() {
    let meta = sample_metadata();
    assert_eq!(workspace_members(&meta), vec![1, 2]);
}

#[test]
fn registry_names_are_listed_once() {
    let meta = sample_metadata();
    assert_eq!(registry_crate_names(&meta), vec!["serde".to_string(), "log".to_string()]);
}

#[test]
fn latest_package_gives_the_metadata() {
    let meta = sample_metadata();
    let cm = crate_meta_from_packages(&meta.packages);
    assert_eq!(cm.len(), 1);
    assert_eq!(cm[0].0, "serde");
    assert_eq!(cm[0].1.repository.as_deref(), Some("new"));
}

#[test]
fn inherited_entries_are_read_from_the_manifest() {
    let text = "[package]\nname = \"app\"\n\n[dependencies]\nserde = { workspace = true }\nlog = \"0.4\"\n\n[dev-dependencies]\nanyhow.workspace = true\n\n[target.'cfg(unix)'.dependencies]\nlibc = { workspace = true }\n";
    let inh = workspace_inherited_deps(text);
    assert!(inh.contains(&dep("serde", Some(CRATES_IO), "1", MetaDepKind::Normal, None, None)));
    assert!(!inh.contains(&dep("log", Some(CRATES_IO), "0.4", MetaDepKind::Normal, None, None)));
    assert!(inh.contains(&dep("anyhow", Some(CRATES_IO), "1", MetaDepKind::Development, None, None)));
    assert!(!inh.contains(&dep("anyhow", Some(CRATES_IO), "1", MetaDepKind::Normal, None, None)));
    assert!(inh.contains(&dep("libc", Some(CRATES_IO), "0.2", MetaDepKind::Normal, None, Some("cfg(unix)"))));
    assert!(!inh.contains(&dep("libc", Some(CRATES_IO), "0.2", MetaDepKind::Normal, None, None)));
}

#[test]
fn unparsable_manifest_inherits_nothing() {
    let inh = workspace_inherited_deps("[dependencies\nserde = { workspace = true }");
    assert!(!inh.contains(&dep("serde", Some(CRATES_IO), "1", MetaDepKind::Normal, None, None)));
}

#[test]
fn renamed_dependency_is_found_by_its_alias() {
    let inh = workspace_inherited_deps("[dependencies]\nmy_serde = { workspace = true }\n");
    assert!(inh.contains(&dep("serde", Some(CRATES_IO), "1", MetaDepKind::Normal, Some("my_serde"), None)));
    assert!(!inh.contains(&dep("serde", Some(CRATES_IO), "1", MetaDepKind::Normal, None, None)));
}

#[test]
fn packages_are_built_from_metadata() {
    let meta = sample_metadata();
    let versions = vec![
        ("serde".to_string(), versions_from_entries(vec![entry("1.0.0", false, None), entry("1.0.200", false, None)])),
        ("log".to_string(), versions_from_entries(vec![entry("0.4.20", false, None)])),
    ];
    let texts = vec![
        ("/ws/app/Cargo.toml".to_string(), "[dependencies]\nserde = { workspace = true }\n".to_string()),
        ("/ws/util/Cargo.toml".to_string(), "[dependencies]\nserde = \"1.0.100\"\n".to_string()),
    ];
    let packages = resolve_packages(&meta, versions, "/ws/Cargo.toml", &texts);
    assert_eq!(packages.len(), 2);

    let serde = &packages[0];
    assert_eq!(serde.purl.name(), "serde");
    assert_eq!(serde.purl.package_type(), "cargo");
    assert_eq!(serde.versions.len(), 2);
    assert_eq!(serde.repository.as_deref(), Some("new"));
    assert_eq!(serde.usages.len(), 2);
    assert_eq!(serde.usages[0].unit, Unit::Workspace { manifest: "/ws/Cargo.toml".to_string() });
    assert_eq!(serde.usages[0].req.to_string(), "^1.0");
    assert_eq!(
        serde.usages[1].unit,
        Unit::Project { manifest: "/ws/util/Cargo.toml".to_string(), name: "util".to_string() }
    );
    assert_eq!(serde.usages[1].req.to_string(), "^1.0.100");

    let log = &packages[1];
    assert_eq!(log.purl.name(), "log");
    assert_eq!(log.usages.len(), 1);
    assert_eq!(log.usages[0].kind, DepKind::Dev);
    assert_eq!(
        log.usages[0].unit,
        Unit::Project { manifest: "/ws/app/Cargo.toml".to_string(), name: "app".to_string() }
    );
    assert_eq!(log.versions.len(), 1);
    assert!(log.repository.is_none());
}

#[test]
fn unread_manifest_keeps_usages_in_the_member() {
    let meta = sample_metadata();
    let packages = resolve_packages(&meta, Vec::new(), "/ws/Cargo.toml", &Vec::new());
    assert_eq!(packages.len(), 2);
    assert_eq!(
        packages[0].usages[0].unit,
        Unit::Project { manifest: "/ws/app/Cargo.toml".to_string(), name: "app".to_string() }
    );
    assert!(packages[0].versions.is_empty());
}

fn demo_metadata() -> Metadata {
    let app = pkg(
        "app-id",
        "app",
        "0.1.0",
        None,
        "/demo/app/Cargo.toml",
        None,
        vec![
            dep("rand", Some(CRATES_IO), "0.8", MetaDepKind::Normal, None, None),
            dep("rand", Some(CRATES_IO), "0.7", MetaDepKind::Normal, Some("rand07"), None),
            dep("anyhow", Some(CRATES_IO), "1", MetaDepKind::Normal, None, Some("cfg(unix)")),
            dep("tokio", Some(CRATES_IO), "1", MetaDepKind::Normal, None, Some("cfg(windows)")),
            dep("cc", Some(CRATES_IO), "1", MetaDepKind::Build, None, None),
        ],
    );
    Metadata {
        packages: vec![app],
        workspace_members: vec!["app-id".to_string()],
        workspace_root: "/demo".to_string(),
    }
}

fn demo_packages() -> Vec<check_updates::Package> {
    let manifest = "[package]\nname = \"app\"\n\n[dependencies]\nrand = { workspace = true }\nrand07 = { package = \"rand\", version = \"0.7\" }\n\n[target.'cfg(unix)'.dependencies]\nanyhow = { workspace = true }\n\n[target.'cfg(windows)'.dependencies]\ntokio = \"1\"\n\n[build-dependencies]\ncc = \"1\"\n";
    let texts = vec![("/demo/app/Cargo.toml".to_string(), manifest.to_string())];
    resolve_packages(&demo_metadata(), Vec::new(), "/demo/Cargo.toml", &texts)
}

#[test]
fn renamed_dependency_is_kept_in_its_project() {
    let packages = demo_packages();
    let rand = packages.iter().find(|p| p.purl.name() == "rand").unwrap();
    assert_eq!(rand.usages.len(), 2);
    assert_eq!(rand.usages[0].unit, Unit::Workspace { manifest: "/demo/Cargo.toml".to_string() });
    assert_eq!(rand.usages[1].rename.as_deref(), Some("rand07"));
    assert!(matches!(rand.usages[1].unit, Unit::Project { .. }));
}

#[test]
fn target_dependency_inherited_from_workspace_has_workspace_unit() {
    let packages = demo_packages();
    let anyhow = packages.iter().find(|p| p.purl.name() == "anyhow").unwrap();
    assert!(anyhow.usages.iter().all(|u| matches!(u.unit, Unit::Workspace { .. })));
}

#[test]
fn target_dependency_of_its_own_has_project_unit() {
    let packages = demo_packages();
    let tokio = packages.iter().find(|p| p.purl.name() == "tokio").unwrap();
    assert!(tokio.usages.iter().all(|u| matches!(u.unit, Unit::Project { .. })));
}

#[test]
fn dependency_kinds_are_kept() {
    let packages = demo_packages();
    let cc = packages.iter().find(|p| p.purl.name() == "cc").unwrap();
    assert_eq!(cc.usages[0].kind, DepKind::Build);
    let rand = packages.iter().find(|p| p.purl.name() == "rand").unwrap();
    assert!(rand.usages.iter().all(|u| u.kind == DepKind::Normal));
    assert_eq!(packages.len(), 4);
}

#[test]
fn index_steps_follow_the_cache_policy() {
    assert!(matches!(index_step(RegistryCachePolicy::PreferLocal, IndexAnswer::NotAsked), IndexStep::ReadCache));
    assert!(matches!(
        index_step(RegistryCachePolicy::PreferLocal, IndexAnswer::CacheMiss),
        IndexStep::Fetch { write_cache: true }
    ));
    assert!(matches!(
        index_step(RegistryCachePolicy::Refresh, IndexAnswer::NotAsked),
        IndexStep::Fetch { write_cache: true }
    ));
    assert!(matches!(
        index_step(RegistryCachePolicy::NoCache, IndexAnswer::NotAsked),
        IndexStep::Fetch { write_cache: false }
    ));
    match index_step(
        RegistryCachePolicy::PreferLocal,
        IndexAnswer::Cached(vec![entry("1.0.0", false, None), entry("x", false, None)]),
    ) {
        IndexStep::Done(v) => assert_eq!(v.len(), 1),
        _ => panic!("expected versions"),
    }
    match index_step(RegistryCachePolicy::Refresh, IndexAnswer::Fetched(None)) {
        IndexStep::Done(v) => assert!(v.is_empty()),
        _ => panic!("expected no versions"),
    }
    assert!(matches!(index_step(RegistryCachePolicy::Refresh, IndexAnswer::Failed), IndexStep::Skip));
}
