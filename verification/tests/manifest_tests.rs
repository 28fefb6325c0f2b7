use check_updates::manifest::{edit_manifest, ManifestEdit};

fn make_edit(section: &str, key: &str, req: &str) -> ManifestEdit {
    ManifestEdit {
        section: section.split('.').map(ToString::to_string).collect(),
        toml_key: key.to_string(),
        new_req: req.parse().unwrap(),
        old_req: "^1.0".parse().unwrap(),
        preserve_bare: true,
    }
}

#[test]
fn edit_simple_version_string() {
    let input = r#"
[dependencies]
serde = "1.0"
"#;
    let result = edit_manifest(input, &[make_edit("dependencies", "serde", "^2.0")]).unwrap();
    let doc: toml_edit::DocumentMut = result.parse().unwrap();
    // Bare version gets ^ stripped
    assert_eq!(doc["dependencies"]["serde"].as_str().unwrap(), "2.0");
}

#[test]
fn edit_inline_table_version() {
    let input = r#"
[dependencies]
serde = { version = "1.0", features = ["derive"] }
"#;
    let result = edit_manifest(input, &[make_edit("dependencies", "serde", "^2.0")]).unwrap();
    let doc: toml_edit::DocumentMut = result.parse().unwrap();
    let table = doc["dependencies"]["serde"].as_inline_table().unwrap();
    assert_eq!(table.get("version").unwrap().as_str().unwrap(), "2.0");
    // features should be preserved
    assert!(table.get("features").is_some());
}

#[test]
fn edit_expanded_table_version() {
    let input = r#"
[dependencies.serde]
version = "1.0"
features = ["derive"]
"#;
    let result = edit_manifest(input, &[make_edit("dependencies", "serde", "^2.0")]).unwrap();
    let doc: toml_edit::DocumentMut = result.parse().unwrap();
    assert_eq!(
        doc["dependencies"]["serde"]["version"].as_str().unwrap(),
        "2.0"
    );
    // features should be preserved
    assert!(
        doc["dependencies"]["serde"]["features"]
            .as_array()
            .is_some()
    );
}

#[test]
fn edit_workspace_dependencies() {
    let input = r#"
[workspace.dependencies]
tokio = "1.0"
serde = { version = "1.0", features = ["derive"] }
"#;
    let result = edit_manifest(
        input,
        &[
            make_edit("workspace.dependencies", "tokio", "^2.0"),
            make_edit("workspace.dependencies", "serde", "^2.0"),
        ],
    )
    .unwrap();
    let doc: toml_edit::DocumentMut = result.parse().unwrap();
    assert_eq!(
        doc["workspace"]["dependencies"]["tokio"].as_str().unwrap(),
        "2.0"
    );
    assert_eq!(
        doc["workspace"]["dependencies"]["serde"]
            .as_inline_table()
            .unwrap()
            .get("version")
            .unwrap()
            .as_str()
            .unwrap(),
        "2.0"
    );
}

#[test]
fn edit_dev_and_build_deps() {
    let input = r#"
[dev-dependencies]
proptest = "1.0"

[build-dependencies]
cc = { version = "1.0" }
"#;
    let result = edit_manifest(
        input,
        &[
            make_edit("dev-dependencies", "proptest", "^2.0"),
            make_edit("build-dependencies", "cc", "^2.0"),
        ],
    )
    .unwrap();
    let doc: toml_edit::DocumentMut = result.parse().unwrap();
    assert_eq!(doc["dev-dependencies"]["proptest"].as_str().unwrap(), "2.0");
    assert_eq!(
        doc["build-dependencies"]["cc"]
            .as_inline_table()
            .unwrap()
            .get("version")
            .unwrap()
            .as_str()
            .unwrap(),
        "2.0"
    );
}

#[test]
fn edit_renamed_package() {
    // When a dep is renamed, the TOML key is the alias, not the crate name.
    let input = r#"
[dependencies]
my_serde = { package = "serde", version = "1.0" }
"#;
    let result =
        edit_manifest(input, &[make_edit("dependencies", "my_serde", "^2.0")]).unwrap();
    let doc: toml_edit::DocumentMut = result.parse().unwrap();
    let table = doc["dependencies"]["my_serde"].as_inline_table().unwrap();
    assert_eq!(table.get("version").unwrap().as_str().unwrap(), "2.0");
    // package field should be preserved
    assert_eq!(table.get("package").unwrap().as_str().unwrap(), "serde");
}

#[test]
fn edit_preserves_formatting() {
    let input = r#"[package]
name = "my-crate"

# important comment
[dependencies]
serde = "1.0"
tokio = "1.0"
"#;
    let result = edit_manifest(input, &[make_edit("dependencies", "serde", "^2.0")]).unwrap();
    // Comment and other deps should be preserved
    assert!(result.contains("# important comment"));
    assert!(result.contains("name = \"my-crate\""));
    assert!(result.contains("tokio"));
}

#[test]
fn edit_missing_section_is_skipped() {
    let input = r#"
[dependencies]
serde = "1.0"
"#;
    // Editing a section that doesn't exist should not error, just skip.
    let result = edit_manifest(input, &[make_edit("dev-dependencies", "foo", "^1.0")]).unwrap();
    // Document should be unchanged (modulo whitespace normalization by toml_edit)
    let doc: toml_edit::DocumentMut = result.parse().unwrap();
    assert_eq!(doc["dependencies"]["serde"].as_str().unwrap(), "1.0");
}

#[test]
fn edit_missing_key_is_skipped() {
    let input = r#"
[dependencies]
serde = "1.0"
"#;
    let result = edit_manifest(input, &[make_edit("dependencies", "tokio", "^1.0")]).unwrap();
    let doc: toml_edit::DocumentMut = result.parse().unwrap();
    assert_eq!(doc["dependencies"]["serde"].as_str().unwrap(), "1.0");
    assert!(doc["dependencies"].get("tokio").is_none());
}

#[test]
fn edit_multiple_deps_same_section() {
    let input = r#"
[dependencies]
serde = "1.0"
tokio = { version = "1.0", features = ["full"] }
"#;
    let result = edit_manifest(
        input,
        &[
            make_edit("dependencies", "serde", "^2.0"),
            make_edit("dependencies", "tokio", "^2.0"),
        ],
    )
    .unwrap();
    let doc: toml_edit::DocumentMut = result.parse().unwrap();
    // Bare versions get ^ stripped
    assert_eq!(doc["dependencies"]["serde"].as_str().unwrap(), "2.0");
    assert_eq!(
        doc["dependencies"]["tokio"]
            .as_inline_table()
            .unwrap()
            .get("version")
            .unwrap()
            .as_str()
            .unwrap(),
        "2.0"
    );
}

#[test]
fn edit_preserves_caret_prefix() {
    let input = r#"
[dependencies]
serde = "^1.0"
"#;
    let result = edit_manifest(input, &[make_edit("dependencies", "serde", "^2.0")]).unwrap();
    let doc: toml_edit::DocumentMut = result.parse().unwrap();
    // Non-bare versions keep the ^
    assert_eq!(doc["dependencies"]["serde"].as_str().unwrap(), "^2.0");
}

#[test]
fn edit_target_dependencies() {
    let input = r#"
[target.'cfg(unix)'.dependencies]
serde = "1.0"
"#;
    let result = edit_manifest(input, &[make_edit("dependencies", "serde", "^2.0")]).unwrap();
    let doc: toml_edit::DocumentMut = result.parse().unwrap();
    assert_eq!(
        doc["target"]["cfg(unix)"]["dependencies"]["serde"]
            .as_str()
            .unwrap(),
        "2.0"
    );
}

#[test]
fn edit_target_expanded_table_dependency() {
    let input = r#"
[target.'cfg(unix)'.dependencies.serde]
version = "1.0"
features = ["derive"]
"#;
    let result = edit_manifest(input, &[make_edit("dependencies", "serde", "^2.0")]).unwrap();
    let doc: toml_edit::DocumentMut = result.parse().unwrap();
    assert_eq!(
        doc["target"]["cfg(unix)"]["dependencies"]["serde"]["version"]
            .as_str()
            .unwrap(),
        "2.0"
    );
    assert!(
        doc["target"]["cfg(unix)"]["dependencies"]["serde"]["features"]
            .as_array()
            .is_some()
    );
}

#[test]
fn edit_target_dependencies_only_matching_current_req() {
    let input = r#"
[dependencies]
serde = "1.0"

[target.'cfg(unix)'.dependencies]
serde = "1.0"

[target.'cfg(windows)'.dependencies]
serde = "2.0"
"#;
    let result = edit_manifest(input, &[make_edit("dependencies", "serde", "^3.0")]).unwrap();
    let doc: toml_edit::DocumentMut = result.parse().unwrap();

    assert_eq!(doc["dependencies"]["serde"].as_str().unwrap(), "3.0");
    assert_eq!(
        doc["target"]["cfg(unix)"]["dependencies"]["serde"]
            .as_str()
            .unwrap(),
        "3.0"
    );
    // Different current requirement should not be rewritten.
    assert_eq!(
        doc["target"]["cfg(windows)"]["dependencies"]["serde"]
            .as_str()
            .unwrap(),
        "2.0"
    );
}

#[test]
fn edit_unparsable_manifest_is_an_error() {
    let err = edit_manifest("[dependencies\nserde = 1", &[]).unwrap_err();
    match err {
        check_updates::CargoError::Metadata(msg) => assert!(msg.starts_with("failed to parse manifest: ")),
        other => panic!("unexpected error {:?}", other),
    }
}

#[test]
fn edit_without_edits_keeps_text() {
    let input = "[package]\nname = \"x\" # keep\n\n[dependencies]\nserde = \"1.0\"\n";
    assert_eq!(edit_manifest(input, &[]).unwrap(), input);
}

#[test]
fn edit_skips_workspace_inherited_entry() {
    let input = r#"
[dependencies]
serde = { workspace = true, version = "1.0" }
"#;
    let result = edit_manifest(input, &[make_edit("dependencies", "serde", "^2.0")]).unwrap();
    let doc: toml_edit::DocumentMut = result.parse().unwrap();
    assert_eq!(doc["dependencies"]["serde"]["version"].as_str().unwrap(), "1.0");
}

#[test]
fn edit_skips_entry_with_other_requirement() {
    let input = r#"
[dependencies]
serde = "1.5"
"#;
    let result = edit_manifest(input, &[make_edit("dependencies", "serde", "^2.0")]).unwrap();
    let doc: toml_edit::DocumentMut = result.parse().unwrap();
    assert_eq!(doc["dependencies"]["serde"].as_str().unwrap(), "1.5");
}

#[test]
fn edit_keeps_caret_when_not_preserving_bare() {
    let input = r#"
[dependencies]
serde = "1.0"
"#;
    let mut edit = make_edit("dependencies", "serde", "^2.0");
    edit.preserve_bare = false;
    let result = edit_manifest(input, &[edit]).unwrap();
    let doc: toml_edit::DocumentMut = result.parse().unwrap();
    assert_eq!(doc["dependencies"]["serde"].as_str().unwrap(), "^2.0");
}

#[test]
fn edit_bare_with_surrounding_space() {
    let input = r#"
[dependencies]
serde = " 1.0"
"#;
    let result = edit_manifest(input, &[make_edit("dependencies", "serde", "^2.0")]).unwrap();
    let doc: toml_edit::DocumentMut = result.parse().unwrap();
    assert_eq!(doc["dependencies"]["serde"].as_str().unwrap(), "2.0");
}

#[test]
fn edit_entry_without_version_is_skipped() {
    let input = r#"
[dependencies]
local = { path = "../local" }
"#;
    let result = edit_manifest(input, &[make_edit("dependencies", "local", "^2.0")]).unwrap();
    let doc: toml_edit::DocumentMut = result.parse().unwrap();
    assert!(doc["dependencies"]["local"].get("version").is_none());
    assert_eq!(doc["dependencies"]["local"]["path"].as_str().unwrap(), "../local");
}

#[test]
fn edit_missing_nested_section_is_skipped() {
    let input = r#"
[dependencies]
serde = "1.0"
"#;
    let result =
        edit_manifest(input, &[make_edit("workspace.dependencies", "serde", "^2.0")]).unwrap();
    assert_eq!(result, input);
    let doc: toml_edit::DocumentMut = result.parse().unwrap();
    assert!(doc.get("workspace").is_none());
}
