use yard::report::{action_line, report_text};
use yard::adaptors::pixi::PixiContribution;
use yard::adaptors::{registry, Adaptor, ApplyOutcome, KeyAction, MergeError, PlanError};
use yard::engine::{
    format_plan_errors, plan, report_entry, resolve_commit, EngineError, FileOutcome, FileReport,
    PlannedCommit, PlannedFile,
};
use yard::{RosDistro, RuntimeContext, YardConfig};

fn runtime() -> RuntimeContext {
    RuntimeContext { workspace_name: Some("ws".to_string()), yard_version: "0.1.0".to_string() }
}

const GITIGNORE: &str = "\
# >>> yard:managed id=standard-ignores >>>
build/
install/
log/
# <<< yard:managed id=standard-ignores <<<
";

const PIXI: &str = "\
[workspace]
name = \"ws\"  # yard:managed default=\"ws\"
channels = [\"conda-forge\", \"robostack-jazzy\"]  # yard:managed default=[\"conda-forge\",\"robostack-jazzy\"]

[dependencies]
python = \">=3.11\"  # yard:managed default=\">=3.11\"
ros-jazzy-desktop = \"*\"  # yard:managed default=\"*\"
";

fn config() -> YardConfig {
    YardConfig { ros_distro: RosDistro::Jazzy }
}

#[test]
fn adaptor_registry_order_and_files() {
    let r = registry();
    assert_eq!(r, vec![Adaptor::Gitignore, Adaptor::Pixi]);
    assert_eq!(r[0].id(), "gitignore");
    assert_eq!(r[0].path(&runtime()), ".gitignore");
    assert_eq!(r[1].id(), "pixi");
    assert_eq!(r[1].path(&runtime()), "pixi.toml");
}

#[test]
fn fresh_workspace_writes_both_files() {
    let files = plan(&config(), &runtime(), &vec![None, None]).expect("plan");
    assert_eq!(files.len(), 2);
    assert_eq!(files[0].path, ".gitignore");
    match &files[0].commit {
        PlannedCommit::Write { contents, .. } => assert_eq!(contents, GITIGNORE),
        other => panic!("expected write, got {other:?}"),
    }
    assert_eq!(files[1].path, "pixi.toml");
    match &files[1].commit {
        PlannedCommit::Write { contents, .. } => assert_eq!(contents, PIXI),
        other => panic!("expected write, got {other:?}"),
    }
}

#[test]
fn second_pass_reports_in_sync() {
    let files = plan(&config(), &runtime(), &vec![Some(GITIGNORE.to_string()), Some(PIXI.to_string())])
        .expect("plan");
    for f in &files {
        match &f.commit {
            PlannedCommit::Write { actions, .. } => {
                assert!(actions.iter().all(|a| matches!(a, KeyAction::InSync { .. })), "{actions:?}");
            }
            other => panic!("expected write, got {other:?}"),
        }
    }
    match &files[0].commit {
        PlannedCommit::Write { contents, .. } => assert_eq!(contents, GITIGNORE),
        _ => unreachable!(),
    }
}

#[test]
fn malformed_gitignore_blocks_everything() {
    let malformed = "# >>> yard:managed >>>\nbuild/\n# <<< yard:managed <<<\n".to_string();
    let err = plan(&config(), &runtime(), &vec![Some(malformed), None]).unwrap_err();
    match &err {
        EngineError::Plan(errs) => assert_eq!(errs.len(), 1),
        other => panic!("expected plan error, got {other:?}"),
    }
    assert!(err.message().contains(".gitignore"));
}

#[test]
fn conflict_blocks_everything() {
    let pixi = PIXI.replace("python = \">=3.11\"", "python = \"3.10\"");
    let err = plan(&config(), &runtime(), &vec![None, Some(pixi)]).unwrap_err();
    match &err {
        EngineError::Conflicts(cs) => {
            assert_eq!(cs.len(), 1);
            assert_eq!(cs[0].0, "pixi.toml");
        }
        other => panic!("expected conflicts, got {other:?}"),
    }
    assert!(err.message().starts_with("1 conflict(s) block the apply"));
}

#[test]
fn resolve_commit_cases() {
    let out = |c: Option<&str>| ApplyOutcome {
        contents: c.map(|s| s.to_string()),
        actions: vec![],
        warnings: vec![],
    };
    assert_eq!(resolve_commit(out(Some("x")), false), PlannedCommit::Write { contents: "x".into(), actions: vec![] });
    assert_eq!(resolve_commit(out(None), true), PlannedCommit::Delete { actions: vec![] });
    assert_eq!(resolve_commit(out(None), false), PlannedCommit::Noop);
}

#[test]
fn report_entries() {
    let w = PlannedFile { path: "a".into(), commit: PlannedCommit::Write { contents: "x".into(), actions: vec![] } };
    assert_eq!(report_entry(w), Some(FileReport { path: "a".into(), outcome: FileOutcome::Wrote(vec![]) }));
    let d = PlannedFile { path: "b".into(), commit: PlannedCommit::Delete { actions: vec![] } };
    assert_eq!(report_entry(d), Some(FileReport { path: "b".into(), outcome: FileOutcome::Deleted(vec![]) }));
    let n = PlannedFile { path: "c".into(), commit: PlannedCommit::Noop };
    assert_eq!(report_entry(n), None);
}

#[test]
fn plan_error_texts() {
    let merge = PlanError::Merge(MergeError {
        adaptor: "pixi",
        key: "workspace.name".into(),
        modules: vec!["mod_a", "mod_b"],
        values: vec!["a".into(), "b".into()],
    });
    let msg = merge.message();
    assert_eq!(msg, "merge conflict on `workspace.name` in pixi: modules [\"mod_a\", \"mod_b\"] disagree (values [\"a\", \"b\"])");
    assert_eq!(format_plan_errors(&vec![]), "plan failed (no detail)");
    assert_eq!(format_plan_errors(&vec![merge.clone()]), msg);
    assert_eq!(format_plan_errors(&vec![merge.clone(), merge.clone()]), format!("2 planning errors:\n  {msg}\n  {msg}"));
}

#[test]
fn pixi_plan_merges_modules() {
    let cs = vec![
        ("mod_a", yard::Contribution::Pixi(PixiContribution { workspace_name: Some("a".into()), ..Default::default() })),
        ("mod_b", yard::Contribution::Pixi(PixiContribution { workspace_name: Some("b".into()), ..Default::default() })),
    ];
    let err = Adaptor::Pixi.plan(cs, None, &runtime()).unwrap_err();
    match err {
        PlanError::Merge(m) => {
            assert_eq!(m.modules, vec!["mod_a", "mod_b"]);
            assert_eq!(m.values, vec!["a".to_string(), "b".to_string()]);
        }
        other => panic!("expected merge error, got {other:?}"),
    }
}

#[test]
fn report_text_lists_files_then_actions() {
    assert_eq!(report_text(&vec![]), "yard apply: nothing to reconcile.\n");
    let files = vec![
        FileReport {
            path: ".gitignore".into(),
            outcome: FileOutcome::Wrote(vec![KeyAction::InSync { key: "standard-ignores".into() }]),
        },
        FileReport {
            path: "pixi.toml".into(),
            outcome: FileOutcome::Deleted(vec![
                KeyAction::Deleted { key: "workspace.name".into(), was: "\"ws\"".into() },
                KeyAction::Overridden { key: "dependencies.x".into() },
            ]),
        },
    ];
    assert_eq!(
        report_text(&files),
        ".gitignore:\n  in sync   standard-ignores\npixi.toml:\n  deleted   workspace.name\n  overridden dependencies.x\n"
    );
    assert_eq!(action_line(&KeyAction::Updated { key: "k".into(), from: "a".into(), to: "b".into() }), "  updated   k");
    assert_eq!(action_line(&KeyAction::Reemitted { key: "k".into(), to: "b".into() }), "  emitted   k");
    assert_eq!(action_line(&KeyAction::Omitted { key: "k".into() }), "  omitted   k");
    assert_eq!(action_line(&KeyAction::Marked { key: "k".into(), default: "\"b\"".into() }), "  marked    k");
    assert_eq!(
        action_line(&KeyAction::Conflict { key: "k".into(), on_disk: "a".into(), default: "b".into() }),
        "  conflict  k"
    );
}

#[test]
fn merge_message_quotes_like_debug() {
    let merge = PlanError::Merge(MergeError {
        adaptor: "pixi",
        key: "dependencies.x".into(),
        modules: vec!["m1", "m2"],
        values: vec!["a\"b".into(), "c\\d".into()],
    });
    assert_eq!(
        merge.message(),
        format!("merge conflict on `dependencies.x` in pixi: modules {:?} disagree (values {:?})", vec!["m1", "m2"], vec!["a\"b", "c\\d"])
    );
}

#[test]
fn parse_errors_carry_their_adaptor() {
    match Adaptor::Pixi.plan(Vec::new(), Some("[workspace\nname = \"x\"\n"), &runtime()) {
        Err(PlanError::Parse { adaptor, .. }) => assert_eq!(adaptor, "pixi"),
        other => panic!("expected a pixi parse error, got {other:?}"),
    }
    match Adaptor::Gitignore.plan(Vec::new(), Some("# >>> yard:managed >>>\nbuild/\n# <<< yard:managed <<<\n"), &runtime()) {
        Err(e @ PlanError::Parse { .. }) => {
            assert!(matches!(e, PlanError::Parse { adaptor: "gitignore", .. }));
            assert!(e.message().contains(".gitignore"));
        },
        other => panic!("expected a gitignore parse error, got {other:?}"),
    }
}

#[test]
fn second_run_keeps_gitignore() {
    let first = plan(&config(), &runtime(), &vec![Some("# mine\n*.log".to_string()), None]).expect("plan");
    let written: Vec<Option<String>> = first
        .iter()
        .map(|f| match &f.commit {
            PlannedCommit::Write { contents, .. } => Some(contents.clone()),
            _ => None,
        })
        .collect();
    let second = plan(&config(), &runtime(), &written).expect("plan");
    match (&first[0].commit, &second[0].commit) {
        (PlannedCommit::Write { contents: c1, .. }, PlannedCommit::Write { contents: c2, actions }) => {
            assert_eq!(c1, c2);
            assert_eq!(actions, &vec![KeyAction::InSync { key: "standard-ignores".into() }]);
        },
        other => panic!("expected two writes, got {other:?}"),
    }
}
