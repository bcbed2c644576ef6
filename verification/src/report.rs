//! The text `yard apply` prints: one line per managed file that was
//! planned, then one line per action on it.
use vstd::prelude::*;

use crate::adaptors::{Action, KeyAction, actions_view};
use crate::engine::{FileOutcome, FileReport};
use crate::text::{chars_of, push_all, push_str, string_of};

verus! {

/// The label an action is printed with, padded so the keys line up.
pub open spec fn action_label(a: Action) -> Seq<char> {
    match a {
        Action::InSync { .. } => "in sync   "@,
        Action::Updated { .. } => "updated   "@,
        Action::Reemitted { .. } => "emitted   "@,
        Action::Marked { .. } => "marked    "@,
        Action::Overridden { .. } => "overridden "@,
        Action::Deleted { .. } => "deleted   "@,
        Action::Omitted { .. } => "omitted   "@,
        Action::Conflict { .. } => "conflict  "@,
    }
}

/// The key an action is about.
pub open spec fn action_key(a: Action) -> Seq<char> {
    match a {
        Action::InSync { key } => key,
        Action::Updated { key, .. } => key,
        Action::Reemitted { key, .. } => key,
        Action::Marked { key, .. } => key,
        Action::Overridden { key } => key,
        Action::Deleted { key, .. } => key,
        Action::Omitted { key } => key,
        Action::Conflict { key, .. } => key,
    }
}

/// The line printed for an action, without its newline:
/// two spaces, the label, the key.
pub open spec fn action_line_spec(a: Action) -> Seq<char> {
    "  "@ + action_label(a) + action_key(a)
}

/// The lines printed for the actions on one file, each ending in a newline.
pub open spec fn actions_text(acts: Seq<Action>) -> Seq<char>
    decreases acts.len(),
{
    if acts.len() == 0 {
        seq![]
    } else {
        actions_text(acts.drop_last()) + action_line_spec(acts.last()) + seq!['\n']
    }
}

/// For each file, its path followed by `:` on a line of its own, then the
/// lines of its actions.
pub open spec fn files_text(files: Seq<(Seq<char>, Seq<Action>)>) -> Seq<char>
    decreases files.len(),
{
    if files.len() == 0 {
        seq![]
    } else {
        files_text(files.drop_last()) + files.last().0 + ":\n"@ + actions_text(files.last().1)
    }
}

/// The whole report: `yard apply: nothing to reconcile.` when no file was
/// planned, else the files' lines.
pub open spec fn report_text_spec(files: Seq<(Seq<char>, Seq<Action>)>) -> Seq<char> {
    if files.len() == 0 {
        "yard apply: nothing to reconcile.\n"@
    } else {
        files_text(files)
    }
}

/// The actions reported for a file, whether it was written or deleted.
pub open spec fn outcome_actions(o: FileOutcome) -> Seq<Action> {
    match o {
        FileOutcome::Wrote(acts) => actions_view(acts@),
        FileOutcome::Deleted(acts) => actions_view(acts@),
    }
}

/// The paths and actions of file reports.
pub open spec fn reports_view(files: Seq<FileReport>) -> Seq<(Seq<char>, Seq<Action>)> {
    files.map_values(|f: FileReport| (f.path@, outcome_actions(f.outcome)))
}

/// The line printed for one action, without its newline.
pub fn action_line(a: &KeyAction) -> (r: String)
    ensures
        r@ == action_line_spec(a@),
{
    let mut out: Vec<char> = Vec::new();
    push_str(&mut out, "  ");
    let key = match a {
        KeyAction::InSync { key } => {
            push_str(&mut out, "in sync   ");
            key
        },
        KeyAction::Updated { key, .. } => {
            push_str(&mut out, "updated   ");
            key
        },
        KeyAction::Reemitted { key, .. } => {
            push_str(&mut out, "emitted   ");
            key
        },
        KeyAction::Marked { key, .. } => {
            push_str(&mut out, "marked    ");
            key
        },
        KeyAction::Overridden { key } => {
            push_str(&mut out, "overridden ");
            key
        },
        KeyAction::Deleted { key, .. } => {
            push_str(&mut out, "deleted   ");
            key
        },
        KeyAction::Omitted { key } => {
            push_str(&mut out, "omitted   ");
            key
        },
        KeyAction::Conflict { key, .. } => {
            push_str(&mut out, "conflict  ");
            key
        },
    };
    let kc = chars_of(key.as_str());
    push_all(&mut out, &kc);
    string_of(&out)
}

/// The text `yard apply` prints for the reports of one run.
pub fn report_text(files: &Vec<FileReport>) -> (r: String)
    ensures
        r@ == report_text_spec(reports_view(files@)),
{
    let ghost fv = reports_view(files@);
    let mut out: Vec<char> = Vec::new();
    if files.len() == 0 {
        push_str(&mut out, "yard apply: nothing to reconcile.\n");
        return string_of(&out);
    }
    let mut i: usize = 0;
    assert(fv.take(0) =~= Seq::<(Seq<char>, Seq<Action>)>::empty());
    while i < files.len()
        invariant
            i <= files.len(),
            fv == reports_view(files@),
            out@ == files_text(fv.take(i as int)),
        decreases files.len() - i,
    {
        assert(fv.take(i + 1).drop_last() =~= fv.take(i as int));
        assert(fv.take(i + 1).last() == fv[i as int]);
        let file = &files[i];
        let pc = chars_of(file.path.as_str());
        push_all(&mut out, &pc);
        push_str(&mut out, ":\n");
        let acts = match &file.outcome {
            FileOutcome::Wrote(acts) => acts,
            FileOutcome::Deleted(acts) => acts,
        };
        let ghost av = actions_view(acts@);
        let ghost start = out@;
        assert(av == fv[i as int].1);
        let mut j: usize = 0;
        assert(av.take(0) =~= Seq::<Action>::empty());
        assert(start + actions_text(av.take(0)) =~= start);
        while j < acts.len()
            invariant
                j <= acts.len(),
                av == actions_view(acts@),
                out@ == start + actions_text(av.take(j as int)),
            decreases acts.len() - j,
        {
            assert(av.take(j + 1).drop_last() =~= av.take(j as int));
            assert(av.take(j + 1).last() == acts@[j as int]@);
            let line = action_line(&acts[j]);
            let lc = chars_of(line.as_str());
            push_all(&mut out, &lc);
            out.push('\n');
            assert(out@ =~= start + actions_text(av.take(j + 1)));
            j += 1;
        }
        assert(av.take(acts.len() as int) =~= av);
        assert(out@ =~= files_text(fv.take(i + 1)));
        i += 1;
    }
    assert(fv.take(files.len() as int) =~= fv);
    string_of(&out)
}

} // verus!
