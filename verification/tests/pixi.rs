use yard::adaptors::pixi::{
    PixiAdaptor, PixiContribution, PixiDesired, PixiParseError, PixiParseErrorKind,
};
use yard::adaptors::{Adaptor, ApplyOutcome, KeyAction};
use yard::RuntimeContext;

fn runtime() -> RuntimeContext {
    RuntimeContext { workspace_name: Some("yard-pixi-test".to_string()), yard_version: "0.1.0".to_string() }
}

fn desired(name: Option<&str>, channels: &[&str], deps: &[(&str, &str)]) -> PixiDesired {
    PixiDesired {
        workspace_name: name.map(|s| s.to_string()),
        channels: channels.iter().map(|s| s.to_string()).collect(),
        dependencies: deps.iter().map(|(k, v)| (k.to_string(), v.to_string())).collect(),
    }
}

fn apply(d: &PixiDesired, existing: Option<&str>) -> ApplyOutcome {
    PixiAdaptor.apply(d, existing, &runtime()).expect("fixture inputs should parse cleanly")
}

fn apply_str(existing: &str, d: PixiDesired) -> Result<ApplyOutcome, PixiParseError> {
    PixiAdaptor.apply(&d, Some(existing), &runtime())
}

/// One `Kind key` per line, as the adaptor fixtures record actions.
fn format_actions(actions: &[KeyAction]) -> String {
    let mut out = String::new();
    for a in actions {
        let (kind, key) = match a {
            KeyAction::InSync { key } => ("InSync", key),
            KeyAction::Updated { key, .. } => ("Updated", key),
            KeyAction::Reemitted { key, .. } => ("Reemitted", key),
            KeyAction::Marked { key, .. } => ("Marked", key),
            KeyAction::Overridden { key } => ("Overridden", key),
            KeyAction::Deleted { key, .. } => ("Deleted", key),
            KeyAction::Omitted { key } => ("Omitted", key),
            KeyAction::Conflict { key, .. } => ("Conflict", key),
        };
        out.push_str(&format!("{kind} {key}\n"));
    }
    out
}

/// Runs one scenario and checks contents, actions and warning count.
fn check(d: PixiDesired, existing: Option<&str>, expected: &str, actions: &str, warnings: usize) {
    let out = apply(&d, existing);
    assert_eq!(out.contents.as_deref(), Some(expected), "contents");
    assert_eq!(format_actions(&out.actions), actions, "actions");
    assert_eq!(out.warnings.len(), warnings, "warnings: {:?}", out.warnings);
}

const NAME_WS: &str = "name = \"ws\"  # yard:managed default=\"ws\"\n";

// ── Fixture scenarios ────────────────────────────────────────────────

#[test]
fn create_fresh_minimal() {
    check(
        desired(Some("ws"), &[], &[]),
        None,
        &format!("[workspace]\n{NAME_WS}"),
        "Reemitted workspace.name\n",
        0,
    );
}

#[test]
fn create_fresh_with_dependencies() {
    let expected = "\
[workspace]
name = \"ws\"  # yard:managed default=\"ws\"
channels = [\"conda-forge\", \"robostack-jazzy\"]  # yard:managed default=[\"conda-forge\",\"robostack-jazzy\"]

[dependencies]
python = \">=3.11\"  # yard:managed default=\">=3.11\"
ros-jazzy-desktop = \"*\"  # yard:managed default=\"*\"
";
    check(
        desired(
            Some("ws"),
            &["conda-forge", "robostack-jazzy"],
            &[("python", ">=3.11"), ("ros-jazzy-desktop", "*")],
        ),
        None,
        expected,
        "Reemitted workspace.name\nReemitted workspace.channels\nReemitted dependencies.python\nReemitted dependencies.ros-jazzy-desktop\n",
        0,
    );
}

#[test]
fn scalar_in_sync() {
    let existing = format!("[workspace]\n{NAME_WS}");
    check(desired(Some("ws"), &[], &[]), Some(&existing), &existing, "InSync workspace.name\n", 0);
}

#[test]
fn scalar_updated() {
    let existing = "[workspace]\nname = \"old\"  # yard:managed default=\"old\"\n";
    let out = apply(&desired(Some("ws"), &[], &[]), Some(existing));
    assert_eq!(out.contents.as_deref(), Some(format!("[workspace]\n{NAME_WS}").as_str()));
    assert_eq!(
        out.actions,
        vec![KeyAction::Updated {
            key: "workspace.name".into(),
            from: "\"old\"".into(),
            to: "\"ws\"".into()
        }]
    );
}

#[test]
fn scalar_conflict() {
    let existing = "[workspace]\nname = \"mine\"  # yard:managed default=\"ws\"\n";
    let out = apply(&desired(Some("ws"), &[], &[]), Some(existing));
    assert_eq!(out.contents.as_deref(), Some(existing));
    assert_eq!(
        out.actions,
        vec![KeyAction::Conflict {
            key: "workspace.name".into(),
            on_disk: "\"mine\"".into(),
            default: "\"ws\"".into()
        }]
    );
}

#[test]
fn scalar_overridden() {
    let existing = "[workspace]\nname = \"mine\"  # yard:overridden\n";
    check(desired(Some("ws"), &[], &[]), Some(existing), existing, "Overridden workspace.name\n", 0);
}

#[test]
fn scalar_omitted() {
    let existing = "# yard:omit workspace.name\n[workspace]\nchannels = [\"x\"]\n";
    check(desired(Some("ws"), &[], &[]), Some(existing), existing, "Omitted workspace.name\n", 0);
}

#[test]
fn scalar_unmarked_attaches_marker() {
    let existing = "[workspace]\nname = \"mine\"\n";
    let expected = "[workspace]\nname = \"mine\"  # yard:managed default=\"ws\"\n";
    check(desired(Some("ws"), &[], &[]), Some(existing), expected, "Marked workspace.name\n", 0);
}

#[test]
fn scalar_missing_reemitted() {
    let existing = "[workspace]\nplatforms = [\"linux-64\"]\n\n[tasks]\n";
    let expected = format!("[workspace]\nplatforms = [\"linux-64\"]\n{NAME_WS}\n[tasks]\n");
    check(desired(Some("ws"), &[], &[]), Some(existing), &expected, "Reemitted workspace.name\n", 0);
}

#[test]
fn scalar_unparsable_default_reemits() {
    let existing = "[workspace]\nname = \"ws\"  # yard:managed default=oops\n";
    let expected = format!("[workspace]\n{NAME_WS}");
    check(desired(Some("ws"), &[], &[]), Some(existing), &expected, "Reemitted workspace.name\n", 0);
}

#[test]
fn scalar_reemitted_creates_section() {
    let existing = "[dependencies]\nnumpy = \"*\"";
    let expected = format!("[dependencies]\nnumpy = \"*\"\n\n[workspace]\n{NAME_WS}");
    check(desired(Some("ws"), &[], &[]), Some(existing), &expected, "Reemitted workspace.name\n", 0);
}

const CH_AB: &str = "channels = [\"a\", \"b\"]  # yard:managed default=[\"a\",\"b\"]\n";

#[test]
fn array_in_sync() {
    let existing = format!("[workspace]\n{CH_AB}");
    check(desired(None, &["a", "b"], &[]), Some(&existing), &existing, "InSync workspace.channels\n", 0);
}

#[test]
fn array_updated() {
    let existing = "[workspace]\nchannels = [\"a\"]  # yard:managed default=[\"a\"]\n";
    let expected = format!("[workspace]\n{CH_AB}");
    check(desired(None, &["a", "b"], &[]), Some(existing), &expected, "Updated workspace.channels\n", 0);
}

#[test]
fn array_user_added_preserved() {
    let existing = "[workspace]\nchannels = [\"a\", \"b\", \"mine\"]  # yard:managed default=[\"a\",\"b\"]\n";
    check(desired(None, &["a", "b"], &[]), Some(existing), existing, "InSync workspace.channels\n", 0);
}

#[test]
fn array_user_added_reorders() {
    let existing = "[workspace]\nchannels = [\"mine\", \"a\", \"b\"]  # yard:managed default=[\"a\",\"b\"]\n";
    let expected = "[workspace]\nchannels = [\"a\", \"b\", \"mine\"]  # yard:managed default=[\"a\",\"b\"]\n";
    check(desired(None, &["a", "b"], &[]), Some(existing), expected, "Updated workspace.channels\n", 0);
}

#[test]
fn array_user_removed_is_conflict() {
    let existing = "[workspace]\nchannels = [\"a\"]  # yard:managed default=[\"a\",\"b\"]\n";
    check(desired(None, &["a", "b"], &[]), Some(existing), existing, "Conflict workspace.channels\n", 0);
}

#[test]
fn array_overridden() {
    let existing = "[workspace]\nchannels = [\"x\"]  # yard:overridden\n";
    check(desired(None, &["a", "b"], &[]), Some(existing), existing, "Overridden workspace.channels\n", 0);
}

#[test]
fn array_desired_drops_element() {
    let existing = format!("[workspace]\n{CH_AB}");
    let expected = "[workspace]\nchannels = [\"a\"]  # yard:managed default=[\"a\"]\n";
    check(desired(None, &["a"], &[]), Some(&existing), expected, "Updated workspace.channels\n", 0);
}

#[test]
fn array_unmarked_attaches_marker() {
    let existing = "[workspace]\nchannels = [\"x\"]\n";
    let expected = "[workspace]\nchannels = [\"x\"]  # yard:managed default=[\"a\",\"b\"]\n";
    check(desired(None, &["a", "b"], &[]), Some(existing), expected, "Marked workspace.channels\n", 0);
}

#[test]
fn array_missing_reemitted() {
    let existing = format!("[workspace]\n{NAME_WS}");
    let expected = format!("[workspace]\n{NAME_WS}{CH_AB}");
    check(
        desired(Some("ws"), &["a", "b"], &[]),
        Some(&existing),
        &expected,
        "InSync workspace.name\nReemitted workspace.channels\n",
        0,
    );
}

#[test]
fn array_omitted() {
    let existing = "[workspace]\n# yard:omit workspace.channels\n";
    check(desired(None, &["a", "b"], &[]), Some(existing), existing, "Omitted workspace.channels\n", 0);
}

const PY: &str = "python = \">=3.11\"  # yard:managed default=\">=3.11\"\n";

#[test]
fn dependency_added() {
    let existing = format!("[dependencies]\n{PY}");
    let expected = format!("[dependencies]\n{PY}numpy = \"*\"  # yard:managed default=\"*\"\n");
    check(
        desired(None, &[], &[("numpy", "*"), ("python", ">=3.11")]),
        Some(&existing),
        &expected,
        "Reemitted dependencies.numpy\nInSync dependencies.python\n",
        0,
    );
}

#[test]
fn dependency_in_sync() {
    let existing = format!("[dependencies]\n{PY}");
    check(
        desired(None, &[], &[("python", ">=3.11")]),
        Some(&existing),
        &existing,
        "InSync dependencies.python\n",
        0,
    );
}

#[test]
fn dependency_updated() {
    let existing = format!("[dependencies]\n{PY}");
    let expected = "[dependencies]\npython = \">=3.12\"  # yard:managed default=\">=3.12\"\n";
    check(
        desired(None, &[], &[("python", ">=3.12")]),
        Some(&existing),
        expected,
        "Updated dependencies.python\n",
        0,
    );
}

#[test]
fn dependency_conflict() {
    let existing = "[dependencies]\npython = \"3.10\"  # yard:managed default=\">=3.11\"\n";
    check(
        desired(None, &[], &[("python", ">=3.12")]),
        Some(existing),
        existing,
        "Conflict dependencies.python\n",
        0,
    );
}

#[test]
fn dependency_overridden() {
    let existing = "[dependencies]\npython = \"3.10\"  # yard:overridden\n";
    check(
        desired(None, &[], &[("python", ">=3.11")]),
        Some(existing),
        existing,
        "Overridden dependencies.python\n",
        0,
    );
}

#[test]
fn dependency_omitted() {
    let existing = "# yard:omit dependencies.python\n[dependencies]\n";
    check(
        desired(None, &[], &[("python", ">=3.11")]),
        Some(existing),
        existing,
        "Omitted dependencies.python\n",
        0,
    );
}

#[test]
fn dependency_unmarked_attaches_marker() {
    let existing = "[dependencies]\npython = \"3.10\"   # pinned by hand\n";
    let expected = "[dependencies]\npython = \"3.10\"  # yard:managed default=\">=3.11\"\n";
    check(
        desired(None, &[], &[("python", ">=3.11")]),
        Some(existing),
        expected,
        "Marked dependencies.python\n",
        0,
    );
}

#[test]
fn unmanaged_dependency_preserved() {
    let existing = "[dependencies]\nnumpy = \"*\"\n";
    let expected = format!("[dependencies]\nnumpy = \"*\"\n{PY}");
    check(
        desired(None, &[], &[("python", ">=3.11")]),
        Some(existing),
        &expected,
        "Reemitted dependencies.python\n",
        0,
    );
}

#[test]
fn removal_in_sync_deletes() {
    let existing = format!("[workspace]\n{NAME_WS}channels = [\"x\"]\n");
    check(
        desired(None, &[], &[]),
        Some(&existing),
        "[workspace]\nchannels = [\"x\"]\n",
        "Deleted workspace.name\n",
        0,
    );
}

#[test]
fn removal_dependency_in_sync_deletes() {
    let existing = format!("[dependencies]\n{PY}numpy = \"*\"\n");
    check(
        desired(None, &[], &[]),
        Some(&existing),
        "[dependencies]\nnumpy = \"*\"\n",
        "Deleted dependencies.python\n",
        0,
    );
}

#[test]
fn removal_array_in_sync_deletes() {
    let existing = format!("[workspace]\n{CH_AB}");
    check(desired(None, &[], &[]), Some(&existing), "[workspace]\n", "Deleted workspace.channels\n", 0);
}

#[test]
fn removal_overridden_left_alone() {
    let existing = "[dependencies]\npython = \"3.10\"  # yard:overridden\n";
    check(
        desired(None, &[], &[]),
        Some(existing),
        existing,
        "Overridden dependencies.python\n",
        0,
    );
}

#[test]
fn removal_stale_omit_warns() {
    let existing = "# yard:omit dependencies.python\n[dependencies]\n";
    check(desired(None, &[], &[]), Some(existing), existing, "Omitted dependencies.python\n", 1);
}

#[test]
fn removal_conflict_blocks() {
    let existing = "[dependencies]\npython = \"3.10\"  # yard:managed default=\">=3.11\"\n";
    check(
        desired(None, &[], &[]),
        Some(existing),
        existing,
        "Conflict dependencies.python\n",
        0,
    );
}

#[test]
fn invalid_omit_warns() {
    let existing = "# yard:omit not a path!\n[workspace]\n";
    let out = apply(&desired(None, &[], &[]), Some(existing));
    assert_eq!(out.contents.as_deref(), Some(existing));
    assert!(out.actions.is_empty());
    assert_eq!(out.warnings.len(), 1);
    assert!(out.warnings[0].contains("not a path!"));
}

#[test]
fn mixed_states() {
    let existing = "\
[workspace]
name = \"mine\"  # yard:overridden
channels = [\"a\"]  # yard:managed default=[\"a\"]

[dependencies]
python = \">=3.11\"  # yard:managed default=\">=3.11\"
old = \"1\"  # yard:managed default=\"1\"
";
    let expected = "\
[workspace]
name = \"mine\"  # yard:overridden
channels = [\"a\", \"b\"]  # yard:managed default=[\"a\",\"b\"]

[dependencies]
python = \">=3.11\"  # yard:managed default=\">=3.11\"
numpy = \"*\"  # yard:managed default=\"*\"
";
    check(
        desired(Some("ws"), &["a", "b"], &[("numpy", "*"), ("python", ">=3.11")]),
        Some(existing),
        expected,
        "Overridden workspace.name\nUpdated workspace.channels\nReemitted dependencies.numpy\nInSync dependencies.python\nDeleted dependencies.old\n",
        0,
    );
}

#[test]
fn preserves_user_sections_and_comments() {
    let existing = "\
# my project
[workspace]
# the name below is yard's
name = \"ws\"  # yard:managed default=\"ws\"
authors = [\"me\"]

[tasks]
build = \"colcon build\"  # a user comment
";
    check(desired(Some("ws"), &[], &[]), Some(existing), existing, "InSync workspace.name\n", 0);
}

// ── Inline tests ─────────────────────────────────────────────────────

#[test]
fn no_contributions_and_no_file_signals_no_file() {
    let outcome = Adaptor::Pixi.plan(Vec::new(), None, &runtime()).expect("plan should succeed");
    assert!(outcome.contents.is_none(), "no contributions + no file should yield contents: None, got {:?}", outcome.contents);
    assert!(outcome.actions.is_empty(), "no contributions ⇒ no actions");
    assert!(outcome.warnings.is_empty(), "no contributions ⇒ no warnings");
}

#[test]
fn empty_existing_with_empty_desired_passes_through_unchanged() {
    let outcome = Adaptor::Pixi.plan(Vec::new(), Some(""), &runtime()).expect("plan should succeed");
    assert_eq!(outcome.contents.as_deref(), Some(""), "empty file + no contributions must passthrough as Some(\"\"), got {:?}", outcome.contents);
    assert!(outcome.actions.is_empty(), "no managed keys ⇒ no actions");
    assert!(outcome.warnings.is_empty(), "no managed keys ⇒ no warnings");
}

fn contribution(name: Option<&str>, channels: &[&str], deps: &[(&str, &str)]) -> PixiContribution {
    PixiContribution {
        workspace_name: name.map(|s| s.to_string()),
        channels: channels.iter().map(|s| s.to_string()).collect(),
        dependencies: deps.iter().map(|(k, v)| (k.to_string(), v.to_string())).collect(),
    }
}

fn dep<'a>(d: &'a PixiDesired, name: &str) -> Option<&'a str> {
    d.dependencies.iter().find(|(k, _)| k == name).map(|(_, v)| v.as_str())
}

#[test]
fn merge_scalar_agreement() {
    let merged = PixiDesired::from_contributions(vec![
        ("mod_a", contribution(Some("myws"), &[], &[])),
        ("mod_b", contribution(Some("myws"), &[], &[])),
    ])
    .expect("matching scalars merge");
    assert_eq!(merged.workspace_name.as_deref(), Some("myws"));
}

#[test]
fn merge_scalar_conflict_errors() {
    let err = PixiDesired::from_contributions(vec![
        ("mod_a", contribution(Some("a"), &[], &[])),
        ("mod_b", contribution(Some("b"), &[], &[])),
    ])
    .expect_err("disagreeing scalars must error");
    assert_eq!(err.key, "workspace.name");
    assert!(
        err.modules.iter().any(|m| *m == "mod_a") && err.modules.iter().any(|m| *m == "mod_b"),
        "error names both modules, got {:?}",
        err.modules,
    );
}

#[test]
fn merge_channels_unions_with_dedup() {
    let merged = PixiDesired::from_contributions(vec![
        ("mod_a", contribution(None, &["conda-forge", "robostack-jazzy"], &[])),
        ("mod_b", contribution(None, &["robostack-jazzy", "extras"], &[])),
    ])
    .expect("array merges are additive");
    assert_eq!(merged.channels, vec!["conda-forge", "robostack-jazzy", "extras"]);
}

#[test]
fn merge_dependencies_disjoint() {
    let merged = PixiDesired::from_contributions(vec![
        ("mod_a", contribution(None, &[], &[("python", "3.11")])),
        ("mod_b", contribution(None, &[], &[("numpy", ">=1.20")])),
    ])
    .expect("disjoint map keys merge");
    assert_eq!(dep(&merged, "python"), Some("3.11"));
    assert_eq!(dep(&merged, "numpy"), Some(">=1.20"));
    // Dependencies come out sorted by name.
    assert_eq!(merged.dependencies[0].0, "numpy");
}

#[test]
fn merge_dependencies_conflict_errors() {
    let err = PixiDesired::from_contributions(vec![
        ("mod_a", contribution(None, &[], &[("python", "3.11")])),
        ("mod_b", contribution(None, &[], &[("python", "3.12")])),
    ])
    .expect_err("same map key with differing values must error");
    assert_eq!(err.key, "dependencies.python");
}

#[test]
fn parse_error_invalid_toml() {
    let err = apply_str("[workspace\nname = \"x\"\n", PixiDesired::default()).expect_err("invalid TOML should fail parse");
    assert!(matches!(err.kind, PixiParseErrorKind::InvalidToml(_)), "got {:?}", err.kind);
}

#[test]
fn parse_error_managed_missing_default() {
    let existing = "[workspace]\nname = \"x\"  # yard:managed\n";
    let err = apply_str(existing, desired(Some("x"), &[], &[])).expect_err("marker missing default= must fail");
    assert!(matches!(err.kind, PixiParseErrorKind::ManagedMissingDefault { .. }), "got {:?}", err.kind);
}

#[test]
fn parse_error_default_shape_mismatch() {
    let existing = "[workspace]\nname = \"x\"  # yard:managed default=[\"x\"]\n";
    let err = apply_str(existing, desired(Some("x"), &[], &[])).expect_err("scalar key with array default= must fail");
    assert!(matches!(err.kind, PixiParseErrorKind::DefaultShapeMismatch { .. }), "got {:?}", err.kind);
}

#[test]
fn merge_same_dependency_twice_agrees() {
    let merged = PixiDesired::from_contributions(vec![
        ("mod_a", contribution(Some("w"), &[], &[("python", "3.11"), ("numpy", "*")])),
        ("mod_b", contribution(None, &[], &[("python", "3.11")])),
        ("mod_c", contribution(Some("w"), &[], &[("numpy", "*")])),
    ])
    .expect("agreeing contributions merge");
    assert_eq!(merged.dependencies.len(), 2);
    assert_eq!(dep(&merged, "python"), Some("3.11"));
}

#[test]
fn merge_conflict_within_one_module_names_it_twice() {
    let err = PixiDesired::from_contributions(vec![(
        "mod_a",
        contribution(None, &[], &[("python", "3.11"), ("python", "3.12")]),
    )])
    .expect_err("one module giving two specs must error");
    assert_eq!(err.key, "dependencies.python");
    assert_eq!(err.modules, vec!["mod_a", "mod_a"]);
    assert_eq!(err.values, vec!["3.11".to_string(), "3.12".to_string()]);
}

#[test]
fn user_lines_survive_apply() {
    let existing = "\
# top comment
[dependencies]
numpy = \"*\"
cmake = \"3.28\"  # yard:overridden
old = \"1\"  # yard:managed default=\"1\"
[package]
name = \"mypkg\"
[tasks]
build = \"colcon build\"";
    let out = apply(&desired(Some("ws"), &[], &[("python", ">=3.11")]), Some(existing));
    let text = out.contents.unwrap();
    for line in ["# top comment\n", "numpy = \"*\"\n", "cmake = \"3.28\"  # yard:overridden\n", "[package]\nname = \"mypkg\"\n", "[tasks]\n"] {
        assert!(text.contains(line), "missing {line:?} in {text:?}");
    }
    assert!(text.contains("build = \"colcon build\""));
    assert!(!text.contains("old = "));
    assert!(text.contains("python = \">=3.11\"  # yard:managed default=\">=3.11\"\n"));
}

#[test]
fn nothing_desired_keeps_user_file() {
    let existing = "# notes\n[tasks]\nbuild = \"colcon build\"  # mine\n\n";
    let out = apply(&desired(None, &[], &[]), Some(existing));
    assert_eq!(out.contents.as_deref(), Some(existing));
    assert!(out.actions.is_empty());
}

#[test]
fn fresh_file_reads_back_in_sync() {
    let d = desired(
        Some("ws"),
        &["conda-forge", "robo \"quoted\""],
        &[("python", ">=3.11"), ("name", "1.0")],
    );
    let first = apply(&d, None);
    let text = first.contents.clone().unwrap();
    let second = apply(&d, Some(&text));
    assert_eq!(second.contents.as_deref(), Some(text.as_str()));
    assert_eq!(
        format_actions(&second.actions),
        "InSync workspace.name\nInSync workspace.channels\nInSync dependencies.python\nInSync dependencies.name\n"
    );
    assert!(second.warnings.is_empty());
}

#[test]
fn added_key_reads_back_in_sync() {
    let d = desired(None, &[], &[("python", ">=3.11")]);
    for existing in ["[tasks]\nbuild = \"colcon build\"", "[dependencies]\nnumpy = \"*\"\n\n[tasks]\n"] {
        let first = apply(&d, Some(existing));
        assert_eq!(format_actions(&first.actions), "Reemitted dependencies.python\n");
        let text = first.contents.clone().unwrap();
        let second = apply(&d, Some(&text));
        assert_eq!(second.contents.as_deref(), Some(text.as_str()));
        assert_eq!(format_actions(&second.actions), "InSync dependencies.python\n");
    }
}

#[test]
fn rewritten_keys_settle_on_second_apply() {
    let d = desired(Some("ws"), &["a", "b"], &[("python", ">=3.11")]);
    let existing = "[workspace]\n\
        name = \"old\"  # yard:managed default=\"old\"\n\
        channels = [\"mine\", \"a\", \"a\", \"x\"]  # yard:managed default=[\"a\",\"x\"]\n\
        \n\
        [dependencies]\n\
        python = \"3.10\"  # yard:managed default=oops\n";
    let first = apply(&d, Some(existing));
    assert_eq!(
        format_actions(&first.actions),
        "Updated workspace.name\nUpdated workspace.channels\nReemitted dependencies.python\n"
    );
    let text = first.contents.clone().unwrap();
    assert!(text.contains("channels = [\"a\", \"b\", \"mine\"]  # yard:managed default=[\"a\",\"b\"]\n"));
    let second = apply(&d, Some(&text));
    assert_eq!(second.contents.as_deref(), Some(text.as_str()));
    assert_eq!(
        format_actions(&second.actions),
        "InSync workspace.name\nInSync workspace.channels\nInSync dependencies.python\n"
    );
}

#[test]
fn unmarked_key_is_classified_on_second_apply() {
    let d = desired(Some("ws"), &[], &[]);
    let first = apply(&d, Some("[workspace]\nname = \"mine\"\n"));
    let text = first.contents.clone().unwrap();
    let second = apply(&d, Some(&text));
    assert_eq!(second.contents.as_deref(), Some(text.as_str()));
    assert_eq!(format_actions(&second.actions), "Conflict workspace.name\n");
}

#[test]
fn key_added_after_unterminated_last_line() {
    let existing = "[workspace]\nchannels = [\"x\"]";
    let expected = format!("[workspace]\nchannels = [\"x\"]\n{NAME_WS}");
    check(desired(Some("ws"), &[], &[]), Some(existing), &expected, "Reemitted workspace.name\n", 0);
}

#[test]
fn unterminated_user_line_stays_a_line() {
    for existing in ["[workspace]\nplatforms = [\"linux-64\"]", "[tasks]\nbuild = \"colcon build\""] {
        let out = apply(&desired(Some("ws"), &["a"], &[("python", ">=3.11")]), Some(existing));
        let text = out.contents.unwrap();
        let last = existing.lines().last().unwrap();
        assert!(text.lines().any(|l| l == last), "{last:?} not a line of {text:?}");
        assert!(text.lines().any(|l| l == NAME_WS.trim_end()), "{text:?}");
    }
}

#[test]
fn array_rewrite_order_is_canonical() {
    let existing = "[workspace]\nchannels = [\"z\", \"a\", \"y\", \"z\", \"b\"]  # yard:managed default=[\"a\",\"b\"]\n";
    let expected = "[workspace]\nchannels = [\"b\", \"a\", \"c\", \"z\", \"y\"]  # yard:managed default=[\"b\",\"a\",\"c\"]\n";
    check(desired(None, &["b", "a", "c"], &[]), Some(existing), expected, "Updated workspace.channels\n", 0);
}

#[test]
fn second_apply_repeats_all_but_deletions() {
    let d = desired(Some("ws"), &[], &[("python", ">=3.11")]);
    let existing = "# yard:omit dependencies.gone\n\
        [workspace]\n\
        name = \"old\"  # yard:managed default=\"old\"\n\
        \n\
        [dependencies]\n\
        old = \"1\"  # yard:managed default=\"1\"\n\
        legacy = \"2\"  # yard:overridden\n\
        extra = [\"a\", \"mine\"]  # yard:managed default=[\"a\"]\n";
    let first = apply(&d, Some(existing));
    assert_eq!(
        format_actions(&first.actions),
        "Updated workspace.name\nReemitted dependencies.python\nDeleted dependencies.old\n\
         Overridden dependencies.legacy\nDeleted dependencies.extra\nOmitted dependencies.gone\n"
    );
    let text = first.contents.clone().unwrap();
    assert!(text.contains("extra = [\"mine\"]\n"));
    let second = apply(&d, Some(&text));
    assert_eq!(second.contents.as_deref(), Some(text.as_str()));
    assert_eq!(
        format_actions(&second.actions),
        "InSync workspace.name\nInSync dependencies.python\nOverridden dependencies.legacy\nOmitted dependencies.gone\n"
    );
    assert_eq!(second.warnings, first.warnings);
}

#[test]
fn unreadable_value_of_managed_key_is_an_error() {
    let d = desired(Some("ws"), &["a"], &[("python", ">=3.11")]);
    let existing = "[dependencies]\npython = { version = \">=3.11\" }\n";
    let err = apply_str(existing, d.clone()).unwrap_err();
    assert_eq!(err.kind, PixiParseErrorKind::UnreadableValue { line: 2 });
    assert!(err.message().contains("pixi.toml line 2"));
    let existing = "[workspace]\nchannels = [\n  \"a\",\n]\n";
    let err = apply_str(existing, d).unwrap_err();
    assert_eq!(err.kind, PixiParseErrorKind::UnreadableValue { line: 2 });
}

#[test]
fn unreadable_value_of_user_key_is_kept() {
    let existing = "[dependencies]\nnumpy = { version = \"1\" }\n";
    let out = apply(&desired(None, &[], &[("python", ">=3.11")]), Some(existing));
    let text = out.contents.unwrap();
    assert!(text.starts_with(existing));
    assert_eq!(format_actions(&out.actions), "Reemitted dependencies.python\n");
}

#[test]
fn user_lines_keep_their_order() {
    let existing = "# top\n[workspace]\nplatforms = [\"linux-64\"]\nname = \"old\"  # yard:managed default=\"old\"\n# mid\n[tasks]\nbuild = \"x\"";
    let out = apply(&desired(Some("ws"), &["a"], &[("python", ">=3.11")]), Some(existing));
    let text = out.contents.unwrap();
    let lines: Vec<&str> = text.lines().collect();
    let pos = |l: &str| lines.iter().position(|x| *x == l).unwrap();
    assert!(pos("# top") < pos("platforms = [\"linux-64\"]"));
    assert!(pos("platforms = [\"linux-64\"]") < pos("# mid"));
    assert!(pos("# mid") < pos("[tasks]"));
    assert!(pos("[tasks]") < pos("build = \"x\""));
}

#[test]
fn array_reordered_yard_items_is_conflict() {
    let existing = "[workspace]\nchannels = [\"b\", \"a\"]  # yard:managed default=[\"a\",\"b\"]\n";
    check(desired(None, &["a", "b"], &[]), Some(existing), existing, "Conflict workspace.channels\n", 0);
    let existing = "[workspace]\nchannels = [\"b\", \"mine\", \"a\"]  # yard:managed default=[\"a\",\"b\"]\n";
    check(desired(None, &["a", "b", "c"], &[]), Some(existing), existing, "Conflict workspace.channels\n", 0);
}

#[test]
fn array_yard_items_in_order_with_user_items_between() {
    let existing = "[workspace]\nchannels = [\"a\", \"mine\", \"b\"]  # yard:managed default=[\"a\",\"b\"]\n";
    let expected = "[workspace]\nchannels = [\"a\", \"b\", \"mine\"]  # yard:managed default=[\"a\",\"b\"]\n";
    check(desired(None, &["a", "b"], &[]), Some(existing), expected, "Updated workspace.channels\n", 0);
}

#[test]
fn removal_of_reordered_array_is_conflict() {
    let existing = "[dependencies]\nextra = [\"b\", \"a\", \"mine\"]  # yard:managed default=[\"a\",\"b\"]\n";
    check(desired(None, &[], &[]), Some(existing), existing, "Conflict dependencies.extra\n", 0);
}

#[test]
fn unmarked_key_records_wanted_default() {
    let out = apply(&desired(None, &["a", "b"], &[]), Some("[workspace]\nchannels = [\"x\"]\n"));
    assert_eq!(
        out.actions,
        vec![KeyAction::Marked { key: "workspace.channels".into(), default: "[\"a\",\"b\"]".into() }]
    );
}

#[test]
fn omit_of_marked_key_is_parse_error() {
    let d = desired(None, &[], &[("python", ">=3.11")]);
    let existing = "[dependencies]\npython = \"1\"  # yard:managed default=\"1\"\n# yard:omit dependencies.python\n";
    let err = apply_str(existing, d.clone()).unwrap_err();
    assert_eq!(err.kind, PixiParseErrorKind::MarkedAndOmitted { line: 2 });
    assert!(err.message().starts_with("pixi.toml line 2: "));
    let existing = "# yard:omit dependencies.python\n[dependencies]\npython = \"1\"  # yard:overridden\n";
    let err = apply_str(existing, d).unwrap_err();
    assert_eq!(err.kind, PixiParseErrorKind::MarkedAndOmitted { line: 3 });
}

#[test]
fn omit_of_unmarked_key_leaves_it_unmarked() {
    let existing = "[dependencies]\npython = \"3.10\"\n# yard:omit dependencies.python\n";
    check(desired(None, &[], &[("python", ">=3.11")]), Some(existing), existing, "Omitted dependencies.python\n", 0);
}

#[test]
fn literal_strings_are_read() {
    let existing = "[workspace]\nname = 'ws'  # yard:managed default=\"ws\"\nchannels = ['a', \"b\"]  # yard:managed default=['a','b']\n";
    check(desired(Some("ws"), &["a", "b"], &[]), Some(existing), existing, "InSync workspace.name\nInSync workspace.channels\n", 0);
    let existing = "[workspace]\nname = 'C:\\dir'\n";
    let expected = "[workspace]\nname = 'C:\\dir'  # yard:managed default=\"ws\"\n";
    check(desired(Some("ws"), &[], &[]), Some(existing), expected, "Marked workspace.name\n", 0);
}
