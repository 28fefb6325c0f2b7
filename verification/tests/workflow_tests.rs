use check_updates::picker::{checkbox_symbol, format_checkbox, row_string, prompt_start, FrameLine, KeyInput, Picker, PickerOutcome, PromptStart};
use check_updates::plan::plan_manifest_edits;
use check_updates::registry::group_packages;
use check_updates::run::{exit_status, missing_filter, pick_steps, run_mode, run_steps, upgraded_message, RunMode, RunStep};
use check_updates::{DepKind, Package, Purl, SemReq, Unit, Usage};

fn usage(unit: Unit, req: &str, kind: DepKind, rename: Option<&str>) -> Usage {
    Usage { unit, req: SemReq::parse(req).unwrap(), kind, rename: rename.map(|s| s.to_string()) }
}

fn package(name: &str, usages: Vec<Usage>) -> Package {
    Package {
        purl: Purl::new("cargo", name).unwrap(),
        usages,
        versions: Vec::new(),
        repository: None,
        homepage: None,
    }
}

fn project(manifest: &str, name: &str) -> Unit {
    Unit::Project { manifest: manifest.to_string(), name: name.to_string() }
}

fn labels(items: &[&str]) -> Vec<String> {
    items.iter().map(|s| s.to_string()).collect()
}

fn item_flags(frame: &[FrameLine]) -> Vec<(bool, bool, String)> {
    frame
        .iter()
        .filter_map(|l| match l {
            FrameLine::Item { current, selected, label } => Some((*current, *selected, label.clone())),
            _ => None,
        })
        .collect()
}

#[test]
fn run_mode_prefers_interactive() {
    assert_eq!(run_mode(true, true, true), RunMode::Interactive);
    assert_eq!(run_mode(false, true, false), RunMode::Apply);
    assert_eq!(run_mode(false, false, true), RunMode::Apply);
    assert_eq!(run_mode(false, false, false), RunMode::Report);
}

#[test]
fn fail_on_updates_exits_with_two() {
    assert_eq!(exit_status(true, true), Some(2));
    assert_eq!(exit_status(true, false), None);
    assert_eq!(exit_status(false, true), None);
}

#[test]
fn upgraded_message_counts() {
    assert_eq!(upgraded_message(1), "\n Upgraded 1 dependency.");
    assert_eq!(upgraded_message(3), "\n Upgraded 3 dependencies.");
    assert_eq!(upgraded_message(0), "\n Upgraded 0 dependencies.");
}

#[test]
fn first_unknown_filter_is_reported() {
    let packages = group_packages(vec![package(
        "serde",
        vec![
            usage(project("/ws/a/Cargo.toml", "a"), "1.0", DepKind::Normal, None),
            usage(Unit::Workspace { manifest: "/ws/Cargo.toml".to_string() }, "1.0", DepKind::Normal, None),
        ],
    )]);
    assert_eq!(missing_filter(&packages, &labels(&["a"])), None);
    assert_eq!(missing_filter(&packages, &labels(&["a", "nope", "other"])), Some(1));
    assert_eq!(missing_filter(&packages, &labels(&["ws"])), None);
    assert_eq!(missing_filter(&packages, &[]), None);
}

#[test]
fn plan_rewrites_every_table_of_the_unit_once() {
    let serde = package(
        "serde",
        vec![
            usage(project("/ws/a/Cargo.toml", "a"), "1.0", DepKind::Normal, None),
            usage(project("/ws/a/Cargo.toml", "a"), "1.0", DepKind::Dev, None),
            usage(project("/ws/b/Cargo.toml", "b"), "1.0", DepKind::Normal, None),
            usage(project("/ws/a/Cargo.toml", "a"), "0.9", DepKind::Build, None),
        ],
    );
    let new_req = SemReq::parse("2.0").unwrap();
    let items = vec![
        (&serde.usages[0], &serde, new_req.copy()),
        (&serde.usages[1], &serde, new_req.copy()),
    ];
    let plan = plan_manifest_edits(&items);
    assert_eq!(plan.len(), 1);
    assert_eq!(plan[0].0, "/ws/a/Cargo.toml");
    let edits = &plan[0].1;
    assert_eq!(edits.len(), 2);
    assert_eq!(edits[0].section, vec!["dependencies".to_string()]);
    assert_eq!(edits[1].section, vec!["dev-dependencies".to_string()]);
    for e in edits {
        assert_eq!(e.toml_key, "serde");
        assert_eq!(e.new_req.to_string(), "^2.0");
        assert_eq!(e.old_req.to_string(), "^1.0");
        assert!(e.preserve_bare);
    }
}

#[test]
fn plan_groups_by_manifest_and_uses_aliases() {
    let ws = Unit::Workspace { manifest: "/ws/Cargo.toml".to_string() };
    let serde = package("serde", vec![usage(ws.clone(), "1.0", DepKind::Normal, None)]);
    let log = package(
        "log",
        vec![
            usage(project("/ws/a/Cargo.toml", "a"), "0.3", DepKind::Normal, Some("logging")),
            usage(Unit::Global, "0.3", DepKind::Normal, None),
        ],
    );
    let items = vec![
        (&log.usages[0], &log, SemReq::parse("0.4").unwrap()),
        (&serde.usages[0], &serde, SemReq::parse("1.1").unwrap()),
        (&log.usages[1], &log, SemReq::parse("0.4").unwrap()),
    ];
    let plan = plan_manifest_edits(&items);
    assert_eq!(plan.len(), 2);
    assert_eq!(plan[0].0, "/ws/a/Cargo.toml");
    assert_eq!(plan[0].1.len(), 1);
    assert_eq!(plan[0].1[0].toml_key, "logging");
    assert_eq!(plan[1].0, "/ws/Cargo.toml");
    assert_eq!(plan[1].1[0].section, vec!["workspace".to_string(), "dependencies".to_string()]);
    assert_eq!(plan[1].1[0].toml_key, "serde");
}

#[test]
fn prompt_start_checks_the_terminal() {
    assert!(matches!(prompt_start(0, false, 40, 80), PromptStart::Empty));
    assert!(matches!(prompt_start(3, false, 40, 80), PromptStart::Start(false)));
    assert!(matches!(prompt_start(3, false, 10, 80), PromptStart::Start(true)));
    assert!(matches!(prompt_start(3, true, 40, 80), PromptStart::Start(true)));
    match prompt_start(3, false, 4, 80) {
        PromptStart::TooSmall(m) => assert_eq!(m, "Terminal height too small (need at least 5 lines)"),
        _ => panic!("expected a refusal"),
    }
    match prompt_start(3, false, 40, 19) {
        PromptStart::TooSmall(m) => assert_eq!(m, "Terminal width too small (need at least 20 columns)"),
        _ => panic!("expected a refusal"),
    }
}

#[test]
fn checkbox_marks() {
    assert_eq!(checkbox_symbol(true, false), "[x]");
    assert_eq!(checkbox_symbol(false, false), "[ ]");
    assert_eq!(checkbox_symbol(true, true), "\u{25c9}");
    assert_eq!(checkbox_symbol(false, true), "\u{25ef}");
}

fn sample_picker(compact: bool, height: usize) -> Picker {
    Picker::new(
        vec![
            ("app".to_string(), labels(&["serde", "log"])),
            ("util".to_string(), labels(&["rand"])),
        ],
        compact,
        height,
    )
}

#[test]
fn picker_frame_shows_all_lines_when_they_fit() {
    let p = sample_picker(false, 20);
    assert!(!p.needs_scroll());
    assert_eq!(p.total_lines(), 9);
    let frame = p.frame();
    assert_eq!(frame.len(), 9);
    assert!(matches!(frame[0], FrameLine::Blank));
    assert!(matches!(frame[1], FrameLine::Title));
    assert!(matches!(frame[2], FrameLine::Help(None)));
    assert!(matches!(&frame[3], FrameLine::Group(n) if n == "app"));
    assert!(matches!(frame[6], FrameLine::Blank));
    assert!(matches!(&frame[7], FrameLine::Group(n) if n == "util"));
    assert_eq!(
        item_flags(&frame),
        vec![
            (true, true, "serde".to_string()),
            (false, true, "log".to_string()),
            (false, true, "rand".to_string()),
        ]
    );
}

#[test]
fn picker_keys_move_toggle_and_finish() {
    let mut p = sample_picker(true, 20);
    assert_eq!(p.total_lines(), 6);
    assert_eq!(p.handle_key(KeyInput::Char(' ')), PickerOutcome::Continue);
    assert_eq!(p.selected_indices(), vec![1, 2]);
    // The toggle moved the cursor on to the second update.
    assert_eq!(item_flags(&p.frame())[1].0, true);
    assert_eq!(p.handle_key(KeyInput::ArrowUp), PickerOutcome::Continue);
    assert_eq!(p.handle_key(KeyInput::ArrowUp), PickerOutcome::Continue);
    // Up from the first update wraps to the last.
    assert_eq!(item_flags(&p.frame())[2].0, true);
    assert_eq!(p.handle_key(KeyInput::Char('j')), PickerOutcome::Continue);
    assert_eq!(item_flags(&p.frame())[0].0, true);
    assert_eq!(p.handle_key(KeyInput::Other), PickerOutcome::Continue);
    assert_eq!(p.handle_key(KeyInput::Enter), PickerOutcome::Confirm);
    assert_eq!(p.handle_key(KeyInput::Char('q')), PickerOutcome::Quit);
    assert_eq!(p.handle_key(KeyInput::Escape), PickerOutcome::Quit);
    assert_eq!(p.selected_indices(), vec![1, 2]);
}

#[test]
fn picker_scrolls_to_keep_the_cursor_shown() {
    let many: Vec<String> = (0..10).map(|i| format!("crate{i}")).collect();
    let mut p = Picker::new(vec![("app".to_string(), many)], false, 7);
    assert!(p.needs_scroll());
    for _ in 0..8 {
        p.handle_key(KeyInput::ArrowDown);
    }
    let frame = p.frame();
    // Header of three rows, then a window of four.
    assert_eq!(frame.len(), 7);
    assert!(matches!(frame[2], FrameLine::Help(Some((9, 10)))));
    // The unit's name stays pinned at the top of the window.
    assert!(matches!(&frame[3], FrameLine::Group(n) if n == "app"));
    let items = item_flags(&frame);
    assert_eq!(items.iter().filter(|i| i.0).count(), 1);
    assert!(items.iter().any(|i| i.0 && i.2 == "crate8"));
}

#[test]
fn picker_move_round_trip() {
    let mut p = sample_picker(false, 20);
    p.move_cursor(5);
    p.move_cursor(-5);
    assert_eq!(item_flags(&p.frame())[0].0, true);
}

#[test]
fn rows_are_written_as_text() {
    console::set_colors_enabled(false);
    assert_eq!(row_string(&FrameLine::Blank, false), "");
    assert_eq!(row_string(&FrameLine::Title, false), "  Choose which packages to update");
    assert_eq!(
        row_string(&FrameLine::Help(None), false),
        "  (\u{2191}\u{2193} jk navigate, space toggle, enter confirm)"
    );
    assert_eq!(
        row_string(&FrameLine::Help(Some((3, 12))), false),
        "  3 / 12  (\u{2191}\u{2193} jk navigate, space toggle, enter confirm)"
    );
    assert_eq!(row_string(&FrameLine::Group("app".to_string()), false), "  app");
    let item = |current: bool, selected: bool| FrameLine::Item { current, selected, label: "serde".to_string() };
    assert_eq!(row_string(&item(true, true), false), "> [x] serde");
    assert_eq!(row_string(&item(false, false), false), "  [ ] serde");
    assert_eq!(row_string(&item(false, true), true), "  \u{25c9} serde");
    assert_eq!(format_checkbox(false, true, true), "\u{25ef}");
    assert_eq!(format_checkbox(true, false, false), "[x]");
}

#[test]
fn rows_are_styled_when_colors_are_on() {
    console::set_colors_enabled(true);
    let title = row_string(&FrameLine::Title, true);
    assert_eq!(title, "  \u{1b}[1mChoose which packages to update\u{1b}[0m");
    assert_eq!(row_string(&FrameLine::Group("app".to_string()), true), "  \u{1b}[34m\u{1b}[1mapp\u{1b}[0m");
    assert_eq!(format_checkbox(true, false, true), "\u{1b}[32m\u{25c9}\u{1b}[0m");
    assert_eq!(
        row_string(&FrameLine::Item { current: false, selected: false, label: "serde".to_string() }, false),
        "  [ ] \u{1b}[2mserde\u{1b}[0m"
    );
    console::set_colors_enabled(false);
}

#[test]
fn run_steps_follow_the_mode() {
    assert_eq!(run_steps(RunMode::Interactive, true, true), vec![RunStep::Prompt]);
    assert_eq!(run_steps(RunMode::Interactive, false, true), vec![RunStep::Summary, RunStep::CargoUpdate]);
    assert_eq!(run_steps(RunMode::Apply, true, false), vec![RunStep::Summary, RunStep::ApplyAll, RunStep::Upgraded, RunStep::ExitStatus]);
    assert_eq!(run_steps(RunMode::Apply, true, true), vec![RunStep::Summary, RunStep::ApplyAll, RunStep::CargoUpdate, RunStep::Upgraded, RunStep::ExitStatus]);
    assert_eq!(run_steps(RunMode::Apply, false, true), vec![RunStep::Summary, RunStep::CargoUpdate]);
    assert_eq!(run_steps(RunMode::Report, true, false), vec![RunStep::Summary, RunStep::Hint, RunStep::ExitStatus]);
    assert_eq!(run_steps(RunMode::Report, false, false), vec![RunStep::Summary, RunStep::ExitStatus]);
    assert_eq!(pick_steps(0, true), vec![RunStep::CargoUpdate, RunStep::NothingPicked, RunStep::ExitStatus]);
    assert_eq!(pick_steps(0, false), vec![RunStep::NothingPicked, RunStep::ExitStatus]);
    assert_eq!(pick_steps(2, false), vec![RunStep::ApplyPicked, RunStep::Upgraded, RunStep::ExitStatus]);
}

#[test]
fn grouping_reports_each_requirement_once_per_unit() {
    let a = project("/ws/a/Cargo.toml", "a");
    let b = project("/ws/b/Cargo.toml", "b");
    let packages = group_packages(vec![
        package(
            "serde",
            vec![
                usage(a.clone(), "1.0", DepKind::Normal, None),
                usage(a.clone(), "1.0", DepKind::Dev, None),
                usage(a.clone(), "*", DepKind::Build, None),
                usage(b.clone(), "1.0", DepKind::Normal, None),
            ],
        ),
        package("log", vec![usage(a.clone(), "0.4", DepKind::Normal, None)]),
    ]);
    assert_eq!(packages.units.len(), 2);
    assert_eq!(packages.units[0].0, a);
    let a_entries: Vec<(String, DepKind, usize)> = packages.units[0]
        .1
        .iter()
        .map(|(r, k, i)| (r.to_string(), *k, *i))
        .collect();
    assert_eq!(a_entries, vec![("^1.0".to_string(), DepKind::Normal, 0), ("^0.4".to_string(), DepKind::Normal, 1)]);
    assert_eq!(packages.units[1].0, b);
    assert_eq!(packages.units[1].1.len(), 1);
}

#[test]
fn fail_on_updates_is_decided_after_an_empty_pick() {
    let mut steps = run_steps(RunMode::Interactive, true, false);
    steps.extend(pick_steps(0, false));
    assert_eq!(steps.last(), Some(&RunStep::ExitStatus));
    assert_eq!(exit_status(true, true), Some(2));
}

#[test]
fn space_twice_flips_two_updates() {
    let mut p = sample_picker(false, 20);
    p.handle_key(KeyInput::Char(' '));
    p.handle_key(KeyInput::Char(' '));
    assert_eq!(p.selected_indices(), vec![2]);
    assert_eq!(item_flags(&p.frame())[2].0, true);
}

#[test]
fn registry_failure_is_reported_as_is() {
    let checker = check_updates::CheckUpdates::new(None);
    let err = check_updates::RegistryError::Cargo(check_updates::CargoError::Index("offline".to_string()));
    match checker.packages(Err(err)) {
        Err(e) => assert_eq!(e.message(), "registry error: cargo registry error: failed to access crates.io index: offline"),
        Ok(_) => panic!("expected the registry's error"),
    }
}
