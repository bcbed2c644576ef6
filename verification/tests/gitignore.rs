use yard::adaptors::gitignore::fences::GitignoreParseError;
use yard::adaptors::gitignore::{DesiredFence, GitignoreAdaptor, GitignoreContribution, GitignoreDesired};
use yard::adaptors::{ApplyOutcome, KeyAction};
use yard::RuntimeContext;

fn runtime() -> RuntimeContext {
    RuntimeContext { workspace_name: Some("ws".to_string()), yard_version: "0.1.0".to_string() }
}

fn fence(id: &str, lines: &[&str]) -> DesiredFence {
    DesiredFence { id: id.to_string(), lines: lines.iter().map(|l| l.to_string()).collect() }
}

fn desired(fences: Vec<DesiredFence>) -> GitignoreDesired {
    GitignoreDesired { fences }
}

fn apply(d: &GitignoreDesired, existing: Option<&str>) -> ApplyOutcome {
    GitignoreAdaptor.apply(d, existing, &runtime()).expect("well-formed input")
}

/// One `Kind key` per line, as the adaptor fixtures record actions.
fn format_actions(actions: &[KeyAction]) -> String {
    let mut out = String::new();
    for a in actions {
        let (kind, key) = match a {
            KeyAction::InSync { key } => ("InSync", key),
            KeyAction::Updated { key, .. } => ("Updated", key),
            KeyAction::Reemitted { key, .. } => ("Reemitted", key),
            KeyAction::Marked { key, .. } => ("Marked", key),
            KeyAction::Overridden { key } => ("Overridden", key),
            KeyAction::Deleted { key, .. } => ("Deleted", key),
            KeyAction::Omitted { key } => ("Omitted", key),
            KeyAction::Conflict { key, .. } => ("Conflict", key),
        };
        out.push_str(&format!("{kind} {key}\n"));
    }
    out
}

const STANDARD: &str = "\
# >>> yard:managed id=standard-ignores >>>
build/
install/
log/
# <<< yard:managed id=standard-ignores <<<
";

fn standard() -> GitignoreDesired {
    desired(vec![fence("standard-ignores", &["build/", "install/", "log/"])])
}

#[test]
fn create_fresh() {
    let out = apply(&standard(), None);
    assert_eq!(out.contents.as_deref(), Some(STANDARD));
    assert_eq!(format_actions(&out.actions), "Reemitted standard-ignores\n");
    assert!(out.warnings.is_empty());
}

#[test]
fn in_sync() {
    let out = apply(&standard(), Some(STANDARD));
    assert_eq!(out.contents.as_deref(), Some(STANDARD));
    assert_eq!(format_actions(&out.actions), "InSync standard-ignores\n");
    assert!(out.warnings.is_empty());
}

#[test]
fn update_in_place() {
    let existing = "\
# personal
secret.env
# >>> yard:managed id=standard-ignores >>>
build/
# <<< yard:managed id=standard-ignores <<<
.idea/
";
    let expected = "\
# personal
secret.env
# >>> yard:managed id=standard-ignores >>>
build/
install/
log/
# <<< yard:managed id=standard-ignores <<<
.idea/
";
    let out = apply(&standard(), Some(existing));
    assert_eq!(out.contents.as_deref(), Some(expected));
    assert_eq!(format_actions(&out.actions), "Updated standard-ignores\n");
    match &out.actions[0] {
        KeyAction::Updated { from, to, .. } => {
            assert_eq!(from, "build/");
            assert_eq!(to, "build/\ninstall/\nlog/");
        }
        other => panic!("expected Updated, got {other:?}"),
    }
}

#[test]
fn appends_when_no_fence() {
    let existing = "# personal\nsecret.env\n.idea/\n";
    let expected = format!("{existing}\n{STANDARD}");
    let out = apply(&standard(), Some(existing));
    assert_eq!(out.contents.as_deref(), Some(expected.as_str()));
    assert_eq!(format_actions(&out.actions), "Reemitted standard-ignores\n");
}

#[test]
fn overridden_block() {
    let existing = "\
# >>> yard:overridden id=standard-ignores >>>
build/
# <<< yard:overridden id=standard-ignores <<<
";
    let out = apply(&standard(), Some(existing));
    assert_eq!(out.contents.as_deref(), Some(existing));
    assert_eq!(format_actions(&out.actions), "Overridden standard-ignores\n");
}

#[test]
fn multiple_fences_fresh() {
    let d = desired(vec![fence("standard-ignores", &["build/", "install/", "log/"]), fence("editor", &[".vscode/"])]);
    let expected = format!(
        "{STANDARD}\n# >>> yard:managed id=editor >>>\n.vscode/\n# <<< yard:managed id=editor <<<\n"
    );
    let out = apply(&d, None);
    assert_eq!(out.contents.as_deref(), Some(expected.as_str()));
    assert_eq!(format_actions(&out.actions), "Reemitted standard-ignores\nReemitted editor\n");
}

#[test]
fn multiple_fences_with_existing() {
    let existing = "\
*.swp
# >>> yard:managed id=editor >>>
.idea/
# <<< yard:managed id=editor <<<
";
    let d = desired(vec![fence("standard-ignores", &["build/", "install/", "log/"]), fence("editor", &[".vscode/"])]);
    let expected = format!(
        "*.swp\n# >>> yard:managed id=editor >>>\n.vscode/\n# <<< yard:managed id=editor <<<\n\n{STANDARD}"
    );
    let out = apply(&d, Some(existing));
    assert_eq!(out.contents.as_deref(), Some(expected.as_str()));
    assert_eq!(format_actions(&out.actions), "Reemitted standard-ignores\nUpdated editor\n");
}

#[test]
fn merges_and_deduplicates_lines() {
    let merged = GitignoreDesired::from_contributions(vec![
        GitignoreContribution {
            id: "standard-ignores".into(),
            lines: vec!["build/".into(), "install/".into()],
        },
        GitignoreContribution {
            id: "standard-ignores".into(),
            lines: vec!["install/".into(), "log/".into()],
        },
    ]);
    assert_eq!(merged.fences.len(), 1);
    assert_eq!(merged.fences[0].id, "standard-ignores");
    assert_eq!(merged.fences[0].lines, vec!["build/", "install/", "log/"]);
}

#[test]
fn groups_contributions_by_id() {
    let merged = GitignoreDesired::from_contributions(vec![
        GitignoreContribution { id: "a".into(), lines: vec!["x".into()] },
        GitignoreContribution { id: "b".into(), lines: vec!["y".into()] },
        GitignoreContribution { id: "a".into(), lines: vec!["z".into()] },
    ]);
    assert_eq!(merged.fences.len(), 2);
    assert_eq!(merged.fences[0].id, "a");
    assert_eq!(merged.fences[0].lines, vec!["x", "z"]);
    assert_eq!(merged.fences[1].id, "b");
    assert_eq!(merged.fences[1].lines, vec!["y"]);
}

// ---- Beyond the fixtures: removal, omits, parse errors, edge cases ----

#[test]
fn gitignore_no_desire_and_no_file_means_no_file() {
    let out = apply(&desired(vec![]), None);
    assert_eq!(out.contents, None);
    assert!(out.actions.is_empty());
}

#[test]
fn gitignore_empty_file_stays_when_nothing_desired() {
    let out = apply(&desired(vec![]), Some(""));
    assert_eq!(out.contents.as_deref(), Some(""));
}

#[test]
fn gitignore_removes_managed_fence_no_longer_desired() {
    let existing = format!("keep.me\n{STANDARD}");
    let out = apply(&desired(vec![]), Some(&existing));
    assert_eq!(out.contents.as_deref(), Some("keep.me\n"));
    assert_eq!(format_actions(&out.actions), "Deleted standard-ignores\n");
    match &out.actions[0] {
        KeyAction::Deleted { was, .. } => assert_eq!(was, "build/\ninstall/\nlog/"),
        other => panic!("expected Deleted, got {other:?}"),
    }
}

#[test]
fn gitignore_keeps_overridden_fence_no_longer_desired() {
    let existing = "# >>> yard:overridden id=old >>>\nx\n# <<< yard:overridden id=old <<<\n";
    let out = apply(&desired(vec![]), Some(existing));
    assert_eq!(out.contents.as_deref(), Some(existing));
    assert_eq!(format_actions(&out.actions), "Overridden old\n");
}

#[test]
fn gitignore_omit_suppresses_block() {
    let existing = "# yard:omit standard-ignores\n";
    let out = apply(&standard(), Some(existing));
    assert_eq!(out.contents.as_deref(), Some(existing));
    assert_eq!(format_actions(&out.actions), "Omitted standard-ignores\n");
    assert!(out.warnings.is_empty());
}

#[test]
fn gitignore_stale_omit_warns() {
    let existing = "# yard:omit nothing-here\n";
    let out = apply(&standard(), Some(existing));
    assert_eq!(out.warnings.len(), 1);
    assert!(out.warnings[0].contains("nothing-here"));
    assert_eq!(format_actions(&out.actions), "Reemitted standard-ignores\nOmitted nothing-here\n");
}

#[test]
fn gitignore_removal_reports_deleted_and_overridden() {
    let existing = "user\n# >>> yard:managed id=x >>>\na\nb\n# <<< yard:managed id=x <<<\n# >>> yard:overridden id=y >>>\nc\n# <<< yard:overridden id=y <<<\n";
    let out = apply(&desired(vec![]), Some(existing));
    assert_eq!(
        out.contents.as_deref(),
        Some("user\n# >>> yard:overridden id=y >>>\nc\n# <<< yard:overridden id=y <<<\n")
    );
    assert_eq!(format_actions(&out.actions), "Deleted x\nOverridden y\n");
    match &out.actions[0] {
        KeyAction::Deleted { was, .. } => assert_eq!(was, "a\nb"),
        other => panic!("expected Deleted, got {other:?}"),
    }
}

#[test]
fn gitignore_invalid_omit_only_warns() {
    let out = apply(&desired(vec![]), Some("# yard:omit not.a.slug\n"));
    assert!(out.actions.is_empty());
    assert_eq!(out.warnings.len(), 1);
}

#[test]
fn gitignore_terminates_last_line_before_appending() {
    let out = apply(&standard(), Some("node_modules/"));
    let expected = format!("node_modules/\n\n{STANDARD}");
    assert_eq!(out.contents.as_deref(), Some(expected.as_str()));
}

#[test]
fn gitignore_keeps_crlf_block_in_sync() {
    let existing = "# >>> yard:managed id=a >>>\r\nx\r\n# <<< yard:managed id=a <<<\r\n";
    let d = desired(vec![fence("a", &["x\r"])]);
    let out = apply(&d, Some(existing));
    assert_eq!(out.contents.as_deref(), Some(existing));
    assert_eq!(format_actions(&out.actions), "InSync a\n");
}

#[test]
fn gitignore_missing_id_is_error() {
    let malformed = "# >>> yard:managed >>>\nbuild/\n# <<< yard:managed <<<\n";
    let err = GitignoreAdaptor.apply(&standard(), Some(malformed), &runtime()).unwrap_err();
    assert_eq!(err, GitignoreParseError::MalformedMarker { line: 1 });
    assert!(err.message().starts_with(".gitignore line 1:"));
}

#[test]
fn gitignore_mismatched_ids_is_error() {
    let mismatched = "# >>> yard:managed id=foo >>>\nbuild/\n# <<< yard:managed id=bar <<<\n";
    let err = GitignoreAdaptor.apply(&standard(), Some(mismatched), &runtime()).unwrap_err();
    assert_eq!(err, GitignoreParseError::MismatchedClose { line: 3 });
}

#[test]
fn gitignore_other_parse_errors() {
    let run = |s: &str| GitignoreAdaptor.apply(&standard(), Some(s), &runtime()).unwrap_err();
    assert_eq!(run("# <<< yard:managed id=a <<<\n"), GitignoreParseError::UnexpectedClose { line: 1 });
    assert_eq!(
        run("# >>> yard:managed id=a >>>\n# >>> yard:managed id=b >>>\n"),
        GitignoreParseError::NestedOpen { line: 2 }
    );
    assert_eq!(run("x\n# >>> yard:managed id=a >>>\nbuild/\n"), GitignoreParseError::Unclosed { line: 2 });
    let dup = "# >>> yard:managed id=a >>>\n# <<< yard:managed id=a <<<\n# >>> yard:managed id=a >>>\n# <<< yard:managed id=a <<<\n";
    assert_eq!(run(dup), GitignoreParseError::DuplicateId { line: 4 });
    assert_eq!(
        run("# >>> yard:managed id=a b >>>\n"),
        GitignoreParseError::MalformedMarker { line: 1 }
    );
}

#[test]
fn gitignore_second_apply_is_idempotent() {
    let existing = "a\n# >>> yard:managed id=old >>>\nz\n# <<< yard:managed id=old <<<\nb";
    let d = desired(vec![fence("standard-ignores", &["build/", "install/", "log/"]), fence("e", &[])]);
    let first = apply(&d, Some(existing));
    let text = first.contents.clone().unwrap();
    let second = apply(&d, Some(&text));
    assert_eq!(second.contents.as_deref(), Some(text.as_str()));
    assert_eq!(format_actions(&second.actions), "InSync standard-ignores\nInSync e\n");
}

#[test]
fn gitignore_user_lines_and_overridden_fences_survive() {
    let existing = "\
# my notes
*.log
# >>> yard:overridden id=mine >>>
keep/
# <<< yard:overridden id=mine <<<
# >>> yard:managed id=stale >>>
old/
# <<< yard:managed id=stale <<<
tail";
    let out = apply(&standard(), Some(existing));
    let text = out.contents.unwrap();
    assert!(text.starts_with("# my notes\n*.log\n# >>> yard:overridden id=mine >>>\nkeep/\n# <<< yard:overridden id=mine <<<\n"));
    assert!(text.contains("\ntail\n"));
    assert!(!text.contains("old/"));
    assert_eq!(format_actions(&out.actions), "Reemitted standard-ignores\nOverridden mine\nDeleted stale\n");
}

#[test]
fn gitignore_nothing_desired_keeps_file_without_managed_fences() {
    let existing = "a\n# >>> yard:overridden id=x >>>\nb\n# <<< yard:overridden id=x <<<\n\nc";
    let out = apply(&desired(vec![]), Some(existing));
    assert_eq!(out.contents.as_deref(), Some(existing));
    assert_eq!(format_actions(&out.actions), "Overridden x\n");
}

#[test]
fn gitignore_merge_unions_lines_per_id() {
    let d = GitignoreDesired::from_contributions(vec![
        GitignoreContribution { id: "a".to_string(), lines: vec!["x".to_string(), "y".to_string()] },
        GitignoreContribution { id: "b".to_string(), lines: vec!["z".to_string()] },
        GitignoreContribution { id: "a".to_string(), lines: vec!["y".to_string(), "w".to_string()] },
    ]);
    assert_eq!(d.fences, vec![fence("a", &["x", "y", "w"]), fence("b", &["z"])]);
}

#[test]
fn gitignore_third_apply_matches_second() {
    let existing = "# yard:omit gone\nuser\n";
    let d = desired(vec![fence("gone", &["g"]), fence("k", &["k1", "", "k2"])]);
    let first = apply(&d, Some(existing));
    let text = first.contents.clone().unwrap();
    let second = apply(&d, Some(&text));
    assert_eq!(second.contents.as_deref(), Some(text.as_str()));
    assert_eq!(format_actions(&second.actions), "Omitted gone\nInSync k\n");
    assert_eq!(second.warnings, first.warnings);
}

#[test]
fn gitignore_user_lines_keep_their_order() {
    let existing = "one\n# >>> yard:managed id=gone >>>\nx\n# <<< yard:managed id=gone <<<\ntwo\n# >>> yard:overridden id=o >>>\ny\n# <<< yard:overridden id=o <<<\nthree\n";
    let out = apply(&standard(), Some(existing));
    let text = out.contents.unwrap();
    let a = text.find("one\n").unwrap();
    let b = text.find("two\n").unwrap();
    let c = text.find("# >>> yard:overridden id=o >>>").unwrap();
    let d = text.find("three\n").unwrap();
    assert!(a < b && b < c && c < d);
    assert!(!text.contains("id=gone"));
}

#[test]
fn gitignore_merge_keeps_id_without_lines() {
    let d = GitignoreDesired::from_contributions(vec![
        GitignoreContribution { id: "empty".to_string(), lines: vec![] },
        GitignoreContribution { id: "a".to_string(), lines: vec!["x".to_string()] },
    ]);
    assert_eq!(d.fences, vec![fence("empty", &[]), fence("a", &["x"])]);
}

#[test]
fn desired_marker_line_is_refused() {
    let d = desired(vec![
        fence("a", &["build/"]),
        fence("b", &["log/", "# <<< yard:managed id=b <<<"]),
    ]);
    let err = GitignoreAdaptor.apply(&d, None, &runtime()).unwrap_err();
    assert_eq!(err, GitignoreParseError::UnwritableLine { fence: 2, line: 2 });
    assert_eq!(
        err.message(),
        ".gitignore: fence 2 line 2 yard wants: holds a line break or reads as a yard marker; yard will not write it inside a fence"
    );
    let d = desired(vec![fence("a", &["build/\nlog/"])]);
    let err = GitignoreAdaptor.apply(&d, Some("x\n"), &runtime()).unwrap_err();
    assert_eq!(err, GitignoreParseError::UnwritableLine { fence: 1, line: 1 });
}

#[test]
fn desired_omit_like_line_is_written() {
    let d = desired(vec![fence("a", &["# yard:omit other"])]);
    let out = apply(&d, None);
    assert_eq!(
        out.contents.as_deref(),
        Some("# >>> yard:managed id=a >>>\n# yard:omit other\n# <<< yard:managed id=a <<<\n")
    );
}

#[test]
fn merge_order_changes_only_order() {
    let c = |id: &str, lines: &[&str]| GitignoreContribution {
        id: id.to_string(),
        lines: lines.iter().map(|l| l.to_string()).collect(),
    };
    let a = GitignoreDesired::from_contributions(vec![c("x", &["1", "2"]), c("y", &["3"]), c("x", &["2", "4"])]);
    let b = GitignoreDesired::from_contributions(vec![c("y", &["3"]), c("x", &["2", "4"]), c("x", &["1", "2"])]);
    let norm = |d: &GitignoreDesired| {
        let mut v: Vec<(String, Vec<String>)> = d
            .fences
            .iter()
            .map(|f| {
                let mut ls = f.lines.clone();
                ls.sort();
                (f.id.clone(), ls)
            })
            .collect();
        v.sort();
        v
    };
    assert_eq!(norm(&a), norm(&b));
    assert_eq!(a.fences[0].id, "x");
    assert_eq!(b.fences[0].id, "y");
}

#[test]
fn desired_bad_or_repeated_id_is_refused() {
    let d = desired(vec![fence("a", &["x"]), fence("bad id", &["y"])]);
    let err = GitignoreAdaptor.apply(&d, None, &runtime()).unwrap_err();
    assert_eq!(err, GitignoreParseError::InvalidFenceId { fence: 2 });
    assert_eq!(err.message(), ".gitignore: fence 2 yard wants: its id is not a slug ([A-Za-z0-9_-]+)");
    let d = desired(vec![fence("a", &["x"]), fence("b", &["y"]), fence("a", &["z"])]);
    let err = GitignoreAdaptor.apply(&d, Some("user\n"), &runtime()).unwrap_err();
    assert_eq!(err, GitignoreParseError::RepeatedFenceId { fence: 3 });
    assert_eq!(err.message(), ".gitignore: fence 3 yard wants: its id is that of an earlier fence");
}
