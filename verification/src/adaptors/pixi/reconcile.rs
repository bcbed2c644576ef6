//! Reconciling the merged pixi intent against the lines of `pixi.toml`.
//!
//! Each managed key is a *target*: a table, a key and the value yard wants.
//! Targets are reconciled in order (`workspace.name`, `workspace.channels`,
//! then dependencies by name), each against the file as left by the ones
//! before. Then managed keys that are no longer wanted are removed, and omit
//! lines that name nothing yard manages are reported.
use vstd::prelude::*;

use super::lines::{
    ExecMarker, ExecPLine, Marker, PLine, classify_pline, classify_pline_exec, is_valid_path,
    is_valid_path_exec, key_end,
};
use super::value::{
    ExecValue, Value, push_value, render_default, render_value, skip_ws, skip_ws_exec,
};
use super::{PixiDesired, PixiIntent, PixiParseError, PixiParseErrorKind};
use crate::adaptors::gitignore::add_missing;
use crate::adaptors::gitignore::fences::strip_eol_exec;
use crate::adaptors::{Action, KeyAction, Outcome, actions_view};
use crate::text::{
    chars_of, concat, lines_of, push_all, push_str, same_chars, slice_of, strip_eol,
};

verus! {

/// Why a `pixi.toml` could not be reconciled.
pub enum PixiErrKind {
    /// The file is not valid TOML; the parser's message.
    InvalidToml(Seq<char>),
    /// A `# yard:managed` marker without `default=` (1-based line).
    ManagedMissingDefault(int),
    /// A `default=` whose shape (string or array) differs from the value's.
    DefaultShapeMismatch(int),
    /// A key yard manages whose value yard cannot read (1-based line).
    UnreadableValue(int),
    /// A key line with a yard marker whose path an omit line also names
    /// (1-based line of the key): a key carries one yard marker at most.
    MarkedAndOmitted(int),
}

/// A managed key: its table, its key, and the value yard wants.
pub type Target = (Seq<char>, Seq<char>, Value);

/// The managed keys of the merged intent, in reconciliation order.
pub open spec fn targets(d: PixiIntent) -> Seq<Target> {
    let t1: Seq<Target> = match d.workspace_name {
        Some(v) => seq![("workspace"@, "name"@, Value::Str(v))],
        None => seq![],
    };
    let t2: Seq<Target> = if d.channels.len() > 0 {
        seq![("workspace"@, "channels"@, Value::Arr(d.channels))]
    } else {
        seq![]
    };
    let t3: Seq<Target> = d.dependencies.map_values(
        |p: (Seq<char>, Seq<char>)| ("dependencies"@, p.0, Value::Str(p.1)),
    );
    t1 + t2 + t3
}

/// The dotted path of `key` in table `section` (the root table is empty).
pub open spec fn key_path(section: Seq<char>, key: Seq<char>) -> Seq<char> {
    if section.len() == 0 {
        key
    } else {
        section + "."@ + key
    }
}

/// Some target has path `p`.
pub open spec fn is_target_path(tg: Seq<Target>, p: Seq<char>) -> bool {
    exists|k: int| 0 <= k < tg.len() && key_path(tg[k].0, tg[k].1) == p
}

/// Line `i`, classified.
pub open spec fn pline_at(lines: Seq<Seq<char>>, i: int) -> PLine {
    classify_pline(strip_eol(lines[i]))
}

/// The table that line `i` belongs to: the last header before it.
pub open spec fn section_before(lines: Seq<Seq<char>>, i: int) -> Seq<char>
    decreases i,
{
    if i <= 0 || i > lines.len() {
        seq![]
    } else {
        match pline_at(lines, i - 1) {
            PLine::Header(n) => n,
            _ => section_before(lines, i - 1),
        }
    }
}

/// Line `i` is the key `key` of table `section`.
pub open spec fn is_key_line(lines: Seq<Seq<char>>, i: int, section: Seq<char>, key: Seq<char>) -> bool {
    pline_at(lines, i) matches PLine::Key { key: k, .. } && k == key && section_before(lines, i)
        == section
}

/// First line at or after `j` that is the key `key` of table `section`, or -1.
pub open spec fn find_key_from(lines: Seq<Seq<char>>, section: Seq<char>, key: Seq<char>, j: int) -> int
    decreases lines.len() - j,
{
    if j < 0 || j >= lines.len() {
        -1
    } else if is_key_line(lines, j, section, key) {
        j
    } else {
        find_key_from(lines, section, key, j + 1)
    }
}

/// First header line of table `section`, or -1.
pub open spec fn header_from(lines: Seq<Seq<char>>, section: Seq<char>, j: int) -> int
    decreases lines.len() - j,
{
    if j < 0 || j >= lines.len() {
        -1
    } else if pline_at(lines, j) == PLine::Header(section) {
        j
    } else {
        header_from(lines, section, j + 1)
    }
}

/// The line holds only spaces and tabs.
pub open spec fn is_blank(line: Seq<char>) -> bool {
    skip_ws(strip_eol(line), 0) >= strip_eol(line).len()
}

/// The last non-blank line of the table whose lines run from `j` on, or
/// `last` if there is none.
pub open spec fn section_last(lines: Seq<Seq<char>>, j: int, last: int) -> int
    decreases lines.len() - j,
{
    if j < 0 || j >= lines.len() || pline_at(lines, j) is Header {
        last
    } else {
        section_last(lines, j + 1, if is_blank(lines[j]) { last } else { j })
    }
}

/// `key = <value>  # yard:managed default=<default>`
pub open spec fn managed_line(key: Seq<char>, v: Value, d: Value) -> Seq<char> {
    key + " = "@ + render_value(v) + "  # yard:managed default="@ + render_default(d) + seq!['\n']
}

/// A key line without its comment, given a fresh marker.
pub open spec fn attach_line(t: Seq<char>, value_end: int, d: Value) -> Seq<char> {
    t.take(value_end) + "  # yard:managed default="@ + render_default(d) + seq!['\n']
}

/// `line` ends with a newline.
pub open spec fn ends_nl(line: Seq<char>) -> bool {
    line.len() > 0 && line.last() == '\n'
}

/// `lines` with line `q - 1` given the newline it lacks, so that another
/// line can follow it.
pub open spec fn close_line(lines: Seq<Seq<char>>, q: int) -> Seq<Seq<char>> {
    if 0 < q <= lines.len() && !ends_nl(lines[q - 1]) {
        lines.update(q - 1, lines[q - 1].push('\n'))
    } else {
        lines
    }
}

/// Adds `line` at the end of table `section`, creating the table at the end
/// of the file if it does not exist.
pub open spec fn insert_key(lines: Seq<Seq<char>>, section: Seq<char>, line: Seq<char>) -> Seq<Seq<char>> {
    let h = header_from(lines, section, 0);
    if h >= 0 {
        let q = section_last(lines, h + 1, h) + 1;
        close_line(lines, q).insert(q, line)
    } else {
        let fixed = if lines.len() > 0 && !ends_nl(lines.last()) {
            lines.update(lines.len() - 1, lines.last().push('\n'))
        } else {
            lines
        };
        let sep: Seq<Seq<char>> = if lines.len() > 0 {
            seq![seq!['\n']]
        } else {
            seq![]
        };
        fixed + sep + seq![seq!['['] + section + seq![']', '\n'], line]
    }
}

/// How many leading items of `a` occur, in `a`'s order, among the first `n`
/// items of `b`, each matched to the earliest item of `b` that fits.
pub open spec fn matched(a: Seq<Seq<char>>, b: Seq<Seq<char>>, n: int) -> int
    decreases n,
{
    if n <= 0 {
        0
    } else {
        let m = matched(a, b, n - 1);
        if m < a.len() && b[n - 1] == a[m] {
            m + 1
        } else {
            m
        }
    }
}

/// The items of `a` occur in `b` in `a`'s order (`a` is a subsequence of
/// `b`): none is missing and none comes before one it follows in `a`.
pub open spec fn in_order(a: Seq<Seq<char>>, b: Seq<Seq<char>>) -> bool {
    matched(a, b, b.len() as int) == a.len()
}

/// The items of `items` that are not in `excl`, in order.
pub open spec fn without(items: Seq<Seq<char>>, excl: Seq<Seq<char>>) -> Seq<Seq<char>>
    decreases items.len(),
{
    if items.len() == 0 {
        seq![]
    } else {
        let before = without(items.drop_last(), excl);
        if excl.contains(items.last()) {
            before
        } else {
            before.push(items.last())
        }
    }
}

/// Reconciles one target against the file: the new lines and the action.
pub open spec fn reconcile_target(lines: Seq<Seq<char>>, omits: Seq<Seq<char>>, tgt: Target) -> (
    Seq<Seq<char>>,
    Action,
) {
    let (section, key, want) = tgt;
    let path = key_path(section, key);
    let i = find_key_from(lines, section, key, 0);
    if i >= 0 {
        match pline_at(lines, i) {
            PLine::Key { value, value_end, marker, .. } => match marker {
                Marker::Overridden => (lines, Action::Overridden { key: path }),
                Marker::Managed(d) => match (want, value, d) {
                    (Value::Arr(w), Value::Arr(cur), Value::Arr(dv)) => if !in_order(dv, cur) {
                        (
                            lines,
                            Action::Conflict {
                                key: path,
                                on_disk: render_value(value),
                                default: render_default(d),
                            },
                        )
                    } else {
                        let new_items = add_missing(w, without(cur, dv));
                        if new_items == cur && w == dv {
                            (lines, Action::InSync { key: path })
                        } else {
                            (
                                lines.update(i, managed_line(key, Value::Arr(new_items), want)),
                                Action::Updated {
                                    key: path,
                                    from: render_value(value),
                                    to: render_value(Value::Arr(new_items)),
                                },
                            )
                        }
                    },
                    _ => if value != d {
                        (
                            lines,
                            Action::Conflict {
                                key: path,
                                on_disk: render_value(value),
                                default: render_default(d),
                            },
                        )
                    } else if want == d {
                        (lines, Action::InSync { key: path })
                    } else {
                        (
                            lines.update(i, managed_line(key, want, want)),
                            Action::Updated { key: path, from: render_value(value), to: render_value(want) },
                        )
                    },
                },
                Marker::NoMarker => if omits.contains(path) {
                    (lines, Action::Omitted { key: path })
                } else {
                    (
                        lines.update(i, attach_line(strip_eol(lines[i]), value_end, want)),
                        Action::Marked { key: path, default: render_default(want) },
                    )
                },
                _ => (
                    lines.update(i, managed_line(key, want, want)),
                    Action::Reemitted { key: path, to: render_value(want) },
                ),
            },
            _ => (lines, Action::InSync { key: path }),
        }
    } else if omits.contains(path) {
        (lines, Action::Omitted { key: path })
    } else {
        (
            insert_key(lines, section, managed_line(key, want, want)),
            Action::Reemitted { key: path, to: render_value(want) },
        )
    }
}

/// Reconciles the targets `tg`, in order.
pub open spec fn reconcile_all(lines: Seq<Seq<char>>, omits: Seq<Seq<char>>, tg: Seq<Target>) -> (
    Seq<Seq<char>>,
    Seq<Action>,
)
    decreases tg.len(),
{
    if tg.len() == 0 {
        (lines, seq![])
    } else {
        let (l1, a1) = reconcile_all(lines, omits, tg.drop_last());
        let (l2, a) = reconcile_target(l1, omits, tg.last());
        (l2, a1.push(a))
    }
}

/// What becomes of line `i` when yard no longer wants the key it holds:
/// the replacement lines (none, or one) and the action, if any.
pub open spec fn removal_at(lines: Seq<Seq<char>>, tg: Seq<Target>, i: int) -> (
    Seq<Seq<char>>,
    Option<Action>,
) {
    let line = lines[i];
    match pline_at(lines, i) {
        PLine::Key { key, value, marker, .. } => {
            let path = key_path(section_before(lines, i), key);
            if is_target_path(tg, path) {
                (seq![line], None)
            } else {
                match marker {
                    Marker::Managed(d) => if value == d {
                        (seq![], Some(Action::Deleted { key: path, was: render_value(value) }))
                    } else {
                        match (value, d) {
                            (Value::Arr(cur), Value::Arr(dv)) => if in_order(dv, cur) {
                                (
                                    seq![key + " = "@ + render_value(Value::Arr(without(cur, dv))) + seq!['\n']],
                                    Some(Action::Deleted { key: path, was: render_value(d) }),
                                )
                            } else {
                                (
                                    seq![line],
                                    Some(
                                        Action::Conflict {
                                            key: path,
                                            on_disk: render_value(value),
                                            default: render_default(d),
                                        },
                                    ),
                                )
                            },
                            _ => (
                                seq![line],
                                Some(
                                    Action::Conflict {
                                        key: path,
                                        on_disk: render_value(value),
                                        default: render_default(d),
                                    },
                                ),
                            ),
                        }
                    },
                    Marker::Overridden => (seq![line], Some(Action::Overridden { key: path })),
                    _ => (seq![line], None),
                }
            }
        },
        _ => (seq![line], None),
    }
}

/// Applies [`removal_at`] to the lines before `n`.
pub open spec fn removal_upto(lines: Seq<Seq<char>>, tg: Seq<Target>, n: int) -> (
    Seq<Seq<char>>,
    Seq<Action>,
)
    decreases n,
{
    if n <= 0 || n > lines.len() {
        (seq![], seq![])
    } else {
        let (l1, a1) = removal_upto(lines, tg, n - 1);
        let (ls, a) = removal_at(lines, tg, n - 1);
        (
            l1 + ls,
            match a {
                Some(x) => a1.push(x),
                None => a1,
            },
        )
    }
}

/// The arguments of the omit lines among `lines[..n]`, in order.
pub open spec fn omit_args(lines: Seq<Seq<char>>, n: int) -> Seq<Seq<char>>
    decreases n,
{
    if n <= 0 || n > lines.len() {
        seq![]
    } else {
        let before = omit_args(lines, n - 1);
        match pline_at(lines, n - 1) {
            PLine::Omit(a) => before.push(a),
            _ => before,
        }
    }
}

/// Warning for an omit line whose argument is not a key path.
pub open spec fn invalid_omit_warning(arg: Seq<char>) -> Seq<char> {
    "ignoring `# yard:omit "@ + arg + "`: not a dotted key path"@
}

/// Warning for an omit line naming no key yard manages.
pub open spec fn stale_omit_warning(arg: Seq<char>) -> Seq<char> {
    "`# yard:omit "@ + arg + "` names no key yard manages in pixi.toml; the line can go"@
}

/// Actions and warnings for omit lines that name nothing yard wants.
pub open spec fn omit_report(omits: Seq<Seq<char>>, tg: Seq<Target>) -> (Seq<Action>, Seq<Seq<char>>)
    decreases omits.len(),
{
    if omits.len() == 0 {
        (seq![], seq![])
    } else {
        let (a, w) = omit_report(omits.drop_last(), tg);
        let arg = omits.last();
        if !is_valid_path(arg) {
            (a, w.push(invalid_omit_warning(arg)))
        } else if !is_target_path(tg, arg) {
            (a.push(Action::Omitted { key: arg }), w.push(stale_omit_warning(arg)))
        } else {
            (a, w)
        }
    }
}

/// The first marker error among lines `j..`, if any.
pub open spec fn marker_error_from(lines: Seq<Seq<char>>, j: int) -> Option<PixiErrKind>
    decreases lines.len() - j,
{
    if j < 0 || j >= lines.len() {
        None
    } else {
        match pline_at(lines, j) {
            PLine::Key { marker: Marker::ManagedNoDefault, .. } => Some(
                PixiErrKind::ManagedMissingDefault(j + 1),
            ),
            PLine::Key { value, marker: Marker::Managed(d), .. } => if (value is Str) != (d is Str) {
                Some(PixiErrKind::DefaultShapeMismatch(j + 1))
            } else {
                marker_error_from(lines, j + 1)
            },
            _ => marker_error_from(lines, j + 1),
        }
    }
}

/// The first key line from `j` on (1-based) that carries a yard marker
/// while an omit line in `omits` names its path, if any.
pub open spec fn marked_omit_from(lines: Seq<Seq<char>>, omits: Seq<Seq<char>>, j: int) -> Option<int>
    decreases lines.len() - j,
{
    if j < 0 || j >= lines.len() {
        None
    } else {
        match pline_at(lines, j) {
            PLine::Key { key, marker, .. } => if !(marker is NoMarker) && omits.contains(
                key_path(section_before(lines, j), key),
            ) {
                Some(j + 1)
            } else {
                marked_omit_from(lines, omits, j + 1)
            },
            _ => marked_omit_from(lines, omits, j + 1),
        }
    }
}

/// The key a line assigns where yard cannot read the value: the line
/// starts with a bare key and `=`, but is no key line yard reads (its value
/// is an inline table, a multi-line array or another kind of value).
pub open spec fn unreadable_key(t: Seq<char>) -> Option<Seq<char>> {
    let i0 = skip_ws(t, 0);
    let ke = key_end(t, i0);
    let eq = skip_ws(t, ke);
    if classify_pline(t) is Other && ke > i0 && eq < t.len() && t[eq] == '=' {
        Some(t.subrange(i0, ke))
    } else {
        None
    }
}

/// The first line from `j` on (1-based) that assigns a key at a path a
/// target has, with a value yard cannot read, if any.
pub open spec fn unreadable_target_from(lines: Seq<Seq<char>>, tg: Seq<Target>, j: int) -> Option<int>
    decreases lines.len() - j,
{
    if j < 0 || j >= lines.len() {
        None
    } else {
        match unreadable_key(strip_eol(lines[j])) {
            Some(k) => if is_target_path(tg, key_path(section_before(lines, j), k)) {
                Some(j + 1)
            } else {
                unreadable_target_from(lines, tg, j + 1)
            },
            None => unreadable_target_from(lines, tg, j + 1),
        }
    }
}

/// The message of the TOML parser for `text`, or `None` when `text` is a
/// valid TOML document, as the `toml` crate answers (see [`toml_check`]).
pub uninterp spec fn toml_parse_error(text: Seq<char>) -> Option<Seq<char>>;

/// Parses `text` as a TOML document with the `toml` crate (`toml::Table`'s
/// `FromStr`, which is `toml::from_str`) and hands back the parser's error
/// message, or `None` when the text parses. The contract claims only that
/// the answer is a fixed function of the text, named [`toml_parse_error`];
/// which texts the crate accepts is not stated.
#[verifier::external_body]
pub(crate) fn toml_check(text: &str) -> (r: Option<String>)
    ensures
        match r {
            Some(m) => toml_parse_error(text@) == Some(m@),
            None => toml_parse_error(text@) is None,
        },
{
    match text.parse::<toml::Table>() {
        Ok(_) => None,
        Err(e) => Some(e.to_string()),
    }
}

/// What reconciling the merged intent `d` against the existing `pixi.toml`
/// yields: invalid TOML, malformed markers, a key with a marker that an
/// omit line names too, and a key yard wants whose value it cannot read
/// fail; otherwise each target
/// is reconciled in order, unwanted managed keys are removed, and stale or
/// invalid omit lines are reported. With no file and nothing wanted, no
/// file should exist.
pub open spec fn plan_pixi(d: PixiIntent, existing: Option<Seq<char>>) -> Result<Outcome, PixiErrKind> {
    let content = match existing {
        Some(c) => c,
        None => seq![],
    };
    let parse_error = match existing {
        Some(c) => toml_parse_error(c),
        None => None,
    };
    match parse_error {
        Some(msg) => Err(PixiErrKind::InvalidToml(msg)),
        None => {
            let lines = lines_of(content);
            let tg = targets(d);
            let omits = omit_args(lines, lines.len() as int);
            match marker_error_from(lines, 0) {
                Some(e) => Err(e),
                None => match marked_omit_from(lines, omits, 0) {
                    Some(n) => Err(PixiErrKind::MarkedAndOmitted(n)),
                    None => match unreadable_target_from(lines, tg, 0) {
                        Some(n) => Err(PixiErrKind::UnreadableValue(n)),
                        None => {
                            let (l1, a1) = reconcile_all(lines, omits, tg);
                            let (l2, a2) = removal_upto(l1, tg, l1.len() as int);
                            let (a3, w) = omit_report(omits, tg);
                            Ok(
                                Outcome {
                                    contents: if existing is None && tg.len() == 0 {
                                        None
                                    } else {
                                        Some(concat(l2))
                                    },
                                    actions: a1 + a2 + a3,
                                    warnings: w,
                                },
                            )
                        },
                    },
                },
            }
        },
    }
}

// ---------------------------------------------------------------------------
// Executable building blocks.
// ---------------------------------------------------------------------------

/// The texts of a list of character vectors.
pub open spec fn lines_view(v: Seq<Vec<char>>) -> Seq<Seq<char>> {
    v.map_values(|l: Vec<char>| l@)
}

/// A copy of `v`.
pub fn copy_chars(v: &Vec<char>) -> (r: Vec<char>)
    ensures
        r@ == v@,
{
    let r = slice_of(v, 0, v.len());
    assert(v@.subrange(0, v@.len() as int) =~= v@);
    r
}

/// A copy of `v`.
pub fn copy_lines(v: &Vec<Vec<char>>) -> (r: Vec<Vec<char>>)
    ensures
        lines_view(r@) == lines_view(v@),
{
    let mut r: Vec<Vec<char>> = Vec::new();
    let mut i: usize = 0;
    while i < v.len()
        invariant
            i <= v.len(),
            lines_view(r@) == lines_view(v@).take(i as int),
        decreases v.len() - i,
    {
        let ghost before = lines_view(r@);
        r.push(copy_chars(&v[i]));
        assert(lines_view(r@) =~= before.push(v@[i as int]@));
        assert(lines_view(v@).take(i + 1) =~= lines_view(v@).take(i as int).push(v@[i as int]@));
        i += 1;
    }
    assert(lines_view(v@).take(v.len() as int) =~= lines_view(v@));
    r
}

/// Whether `v` holds `t`.
pub fn contains_text(v: &Vec<Vec<char>>, t: &Vec<char>) -> (r: bool)
    ensures
        r == lines_view(v@).contains(t@),
{
    let ghost vv = lines_view(v@);
    let mut i: usize = 0;
    while i < v.len()
        invariant
            i <= v.len(),
            vv == lines_view(v@),
            forall|k: int| 0 <= k < i ==> vv[k] != t@,
        decreases v.len() - i,
    {
        if same_chars(&v[i], t) {
            assert(vv[i as int] == t@);
            return true;
        }
        i += 1;
    }
    false
}

/// Whether `a` and `b` hold the same texts.
fn same_lines(a: &Vec<Vec<char>>, b: &Vec<Vec<char>>) -> (r: bool)
    ensures
        r == (lines_view(a@) == lines_view(b@)),
{
    if a.len() != b.len() {
        return false;
    }
    let mut i: usize = 0;
    while i < a.len()
        invariant
            i <= a.len(),
            a.len() == b.len(),
            forall|k: int| 0 <= k < i ==> lines_view(a@)[k] == lines_view(b@)[k],
        decreases a.len() - i,
    {
        if !same_chars(&a[i], &b[i]) {
            assert(lines_view(a@)[i as int] != lines_view(b@)[i as int]);
            return false;
        }
        i += 1;
    }
    assert(lines_view(a@) =~= lines_view(b@));
    true
}

/// Whether `a` and `b` are the same value.
pub fn same_value(a: &ExecValue, b: &ExecValue) -> (r: bool)
    ensures
        r == (a@ == b@),
{
    match (a, b) {
        (ExecValue::Str(x), ExecValue::Str(y)) => same_chars(x, y),
        (ExecValue::Arr(x), ExecValue::Arr(y)) => same_lines(x, y),
        _ => false,
    }
}

/// Whether the items of `a` occur in `b` in `a`'s order.
fn in_order_exec(a: &Vec<Vec<char>>, b: &Vec<Vec<char>>) -> (r: bool)
    ensures
        r == in_order(lines_view(a@), lines_view(b@)),
{
    let ghost av = lines_view(a@);
    let ghost bv = lines_view(b@);
    let mut m: usize = 0;
    let mut k: usize = 0;
    while k < b.len()
        invariant
            k <= b.len(),
            m <= a.len(),
            av == lines_view(a@),
            bv == lines_view(b@),
            m as int == matched(av, bv, k as int),
        decreases b.len() - k,
    {
        assert(bv[k as int] == b@[k as int]@);
        if m < a.len() {
            assert(av[m as int] == a@[m as int]@);
            if same_chars(&b[k], &a[m]) {
                m += 1;
            }
        }
        k += 1;
    }
    m == a.len()
}

/// The items of `items` that are not in `excl`.
fn without_exec(items: &Vec<Vec<char>>, excl: &Vec<Vec<char>>) -> (r: Vec<Vec<char>>)
    ensures
        lines_view(r@) == without(lines_view(items@), lines_view(excl@)),
{
    let ghost iv = lines_view(items@);
    let mut r: Vec<Vec<char>> = Vec::new();
    let mut i: usize = 0;
    assert(iv.take(0) =~= Seq::<Seq<char>>::empty());
    while i < items.len()
        invariant
            i <= items.len(),
            iv == lines_view(items@),
            lines_view(r@) == without(iv.take(i as int), lines_view(excl@)),
        decreases items.len() - i,
    {
        assert(iv.take(i + 1).drop_last() =~= iv.take(i as int));
        assert(iv.take(i + 1).last() == items@[i as int]@);
        if !contains_text(excl, &items[i]) {
            let ghost before = lines_view(r@);
            r.push(copy_chars(&items[i]));
            assert(lines_view(r@) =~= before.push(items@[i as int]@));
        }
        i += 1;
    }
    assert(iv.take(items.len() as int) =~= iv);
    r
}

/// `lines` followed by the items of `new` it does not hold yet.
fn add_missing_exec(lines: &Vec<Vec<char>>, new: &Vec<Vec<char>>) -> (r: Vec<Vec<char>>)
    ensures
        lines_view(r@) == add_missing(lines_view(lines@), lines_view(new@)),
{
    let ghost nv = lines_view(new@);
    let mut r = copy_lines(lines);
    let mut i: usize = 0;
    assert(nv.take(0) =~= Seq::<Seq<char>>::empty());
    while i < new.len()
        invariant
            i <= new.len(),
            nv == lines_view(new@),
            lines_view(r@) == add_missing(lines_view(lines@), nv.take(i as int)),
        decreases new.len() - i,
    {
        assert(nv.take(i + 1).drop_last() =~= nv.take(i as int));
        assert(nv.take(i + 1).last() == new@[i as int]@);
        if !contains_text(&r, &new[i]) {
            let ghost before = lines_view(r@);
            r.push(copy_chars(&new[i]));
            assert(lines_view(r@) =~= before.push(new@[i as int]@));
        }
        i += 1;
    }
    assert(nv.take(new.len() as int) =~= nv);
    r
}

/// Line `i`, classified.
fn pline_at_exec(lines: &Vec<Vec<char>>, i: usize) -> (r: ExecPLine)
    requires
        i < lines.len(),
    ensures
        r@ == pline_at(lines_view(lines@), i as int),
{
    let t = strip_eol_exec(&lines[i]);
    classify_pline_exec(&t)
}

/// First line that is the key `key` of table `section`.
fn find_key(lines: &Vec<Vec<char>>, section: &Vec<char>, key: &Vec<char>) -> (r: Option<usize>)
    ensures
        match r {
            Some(i) => find_key_from(lines_view(lines@), section@, key@, 0) == i && i < lines@.len(),
            None => find_key_from(lines_view(lines@), section@, key@, 0) == -1,
        },
{
    let ghost lv = lines_view(lines@);
    let mut cur: Vec<char> = Vec::new();
    let mut i: usize = 0;
    assert(cur@ =~= section_before(lv, 0));
    while i < lines.len()
        invariant
            i <= lines.len(),
            lv == lines_view(lines@),
            cur@ == section_before(lv, i as int),
            find_key_from(lv, section@, key@, 0) == find_key_from(lv, section@, key@, i as int),
        decreases lines.len() - i,
    {
        let pl = pline_at_exec(lines, i);
        match pl {
            ExecPLine::Header(n) => {
                cur = n;
            },
            ExecPLine::Key { key: k, .. } => {
                if same_chars(&k, key) && same_chars(&cur, section) {
                    return Some(i);
                }
            },
            _ => {},
        }
        i += 1;
    }
    None
}

/// First header line of table `section`.
fn find_header(lines: &Vec<Vec<char>>, section: &Vec<char>) -> (r: Option<usize>)
    ensures
        match r {
            Some(i) => header_from(lines_view(lines@), section@, 0) == i && i < lines@.len(),
            None => header_from(lines_view(lines@), section@, 0) == -1,
        },
{
    let ghost lv = lines_view(lines@);
    let mut i: usize = 0;
    while i < lines.len()
        invariant
            i <= lines.len(),
            lv == lines_view(lines@),
            header_from(lv, section@, 0) == header_from(lv, section@, i as int),
        decreases lines.len() - i,
    {
        let pl = pline_at_exec(lines, i);
        match pl {
            ExecPLine::Header(n) => {
                if same_chars(&n, section) {
                    return Some(i);
                }
            },
            _ => {},
        }
        i += 1;
    }
    None
}

/// Whether the line holds only spaces and tabs.
fn is_blank_exec(line: &Vec<char>) -> (r: bool)
    ensures
        r == is_blank(line@),
{
    let t = strip_eol_exec(line);
    skip_ws_exec(&t, 0) >= t.len()
}

/// The last non-blank line of the table whose header is line `h`, or `h`.
fn section_last_exec(lines: &Vec<Vec<char>>, h: usize) -> (r: usize)
    requires
        h < lines.len(),
    ensures
        r == section_last(lines_view(lines@), h + 1, h as int),
        h <= r < lines.len(),
{
    let ghost lv = lines_view(lines@);
    let mut last = h;
    let mut j = h + 1;
    while j < lines.len()
        invariant
            h < j <= lines.len(),
            h <= last < j,
            lv == lines_view(lines@),
            section_last(lv, h + 1, h as int) == section_last(lv, j as int, last as int),
        decreases lines.len() - j,
    {
        let pl = pline_at_exec(lines, j);
        if let ExecPLine::Header(_) = pl {
            return last;
        }
        if !is_blank_exec(&lines[j]) {
            last = j;
        }
        j += 1;
    }
    last
}

/// `key = <value>  # yard:managed default=<default>`
fn managed_line_exec(key: &Vec<char>, v: &ExecValue, d: &ExecValue) -> (r: Vec<char>)
    ensures
        r@ == managed_line(key@, v@, d@),
{
    let mut out = copy_chars(key);
    push_str(&mut out, " = ");
    push_value(&mut out, v, false);
    push_str(&mut out, "  # yard:managed default=");
    push_value(&mut out, d, true);
    out.push('\n');
    assert(out@ =~= managed_line(key@, v@, d@));
    out
}

/// A key line without its comment, given a fresh marker.
fn attach_line_exec(t: &Vec<char>, value_end: usize, d: &ExecValue) -> (r: Vec<char>)
    requires
        value_end <= t.len(),
    ensures
        r@ == attach_line(t@, value_end as int, d@),
{
    let mut out = slice_of(t, 0, value_end);
    push_str(&mut out, "  # yard:managed default=");
    push_value(&mut out, d, true);
    out.push('\n');
    assert(out@ =~= attach_line(t@, value_end as int, d@));
    out
}

/// Adds `line` at the end of table `section`.
fn insert_key_exec(lines: &mut Vec<Vec<char>>, section: &Vec<char>, line: Vec<char>)
    ensures
        lines_view(final(lines)@) == insert_key(lines_view(old(lines)@), section@, line@),
{
    let ghost lv = lines_view(lines@);
    match find_header(lines, section) {
        Some(h) => {
            let at = section_last_exec(lines, h);
            let prev_ok = lines[at].len() > 0 && lines[at][lines[at].len() - 1] == '\n';
            if !prev_ok {
                let mut prev: Vec<char> = Vec::new();
                lines.set_and_swap(at, &mut prev);
                prev.push('\n');
                lines.set_and_swap(at, &mut prev);
                assert(lines_view(lines@) =~= lv.update(at as int, lv[at as int].push('\n')));
            }
            let ghost closed = lines_view(lines@);
            assert(closed == close_line(lv, at + 1));
            lines.insert(at + 1, line);
            assert(lines_view(lines@) =~= closed.insert(at + 1, line@));
        },
        None => {
            let n = lines.len();
            if n > 0 {
                let last_ok = lines[n - 1].len() > 0 && lines[n - 1][lines[n - 1].len() - 1] == '\n';
                if !last_ok {
                    let mut last: Vec<char> = Vec::new();
                    lines.set_and_swap(n - 1, &mut last);
                    last.push('\n');
                    lines.set_and_swap(n - 1, &mut last);
                    assert(lines_view(lines@) =~= lv.update(n - 1, lv.last().push('\n')));
                }
                let ghost fixed = lines_view(lines@);
                let mut nl: Vec<char> = Vec::new();
                nl.push('\n');
                lines.push(nl);
                assert(lines_view(lines@) =~= fixed + seq![seq!['\n']]);
            }
            let ghost fixed2 = lines_view(lines@);
            let mut header: Vec<char> = Vec::new();
            header.push('[');
            push_all(&mut header, section);
            header.push(']');
            header.push('\n');
            assert(header@ =~= seq!['['] + section@ + seq![']', '\n']);
            lines.push(header);
            lines.push(line);
            assert(lines_view(lines@) =~= fixed2 + seq![seq!['['] + section@ + seq![']', '\n'], line@]);
            proof {
                let fixed = if lv.len() > 0 && !ends_nl(lv.last()) {
                    lv.update(lv.len() - 1, lv.last().push('\n'))
                } else {
                    lv
                };
                let sep: Seq<Seq<char>> = if lv.len() > 0 {
                    seq![seq!['\n']]
                } else {
                    seq![]
                };
                assert(fixed2 =~= fixed + sep);
                assert(lines_view(lines@) =~= fixed + sep + seq![seq!['['] + section@ + seq![']', '\n'], line@]);
            }
        },
    }
}

/// The dotted path of `key` in table `section`.
fn key_path_exec(section: &Vec<char>, key: &Vec<char>) -> (r: Vec<char>)
    ensures
        r@ == key_path(section@, key@),
{
    if section.len() == 0 {
        copy_chars(key)
    } else {
        let mut out = copy_chars(section);
        out.push('.');
        push_all(&mut out, key);
        assert(out@ =~= section@ + "."@ + key@) by {
            reveal_strlit(".");
        }
        out
    }
}

/// A value as written after `key = `.
fn value_text(v: &ExecValue) -> (r: String)
    ensures
        r@ == render_value(v@),
{
    let mut out: Vec<char> = Vec::new();
    push_value(&mut out, v, false);
    assert(out@ =~= render_value(v@));
    crate::text::string_of(&out)
}

/// A value as recorded in `default=`.
fn default_text(v: &ExecValue) -> (r: String)
    ensures
        r@ == render_default(v@),
{
    let mut out: Vec<char> = Vec::new();
    push_value(&mut out, v, true);
    assert(out@ =~= render_default(v@));
    crate::text::string_of(&out)
}

/// The spec view of an executable target.
pub open spec fn target_view(t: (Vec<char>, Vec<char>, ExecValue)) -> Target {
    (t.0@, t.1@, t.2@)
}

/// Reconciles one target against the file.
fn reconcile_target_exec(
    lines: &mut Vec<Vec<char>>,
    omits: &Vec<Vec<char>>,
    tgt: &(Vec<char>, Vec<char>, ExecValue),
) -> (r: KeyAction)
    ensures
        (lines_view(final(lines)@), r@) == reconcile_target(
            lines_view(old(lines)@),
            lines_view(omits@),
            target_view(*tgt),
        ),
{
    let section = &tgt.0;
    let key = &tgt.1;
    let want = &tgt.2;
    let ghost lv = lines_view(lines@);
    let path = key_path_exec(section, key);
    let pstr = crate::text::string_of(&path);
    match find_key(lines, section, key) {
        Some(i) => {
            let t = strip_eol_exec(&lines[i]);
            assert(lv[i as int] == lines@[i as int]@);
            let pl = classify_pline_exec(&t);
            match pl {
                ExecPLine::Key { value, value_end, marker, .. } => match marker {
                    ExecMarker::Overridden => KeyAction::Overridden { key: pstr },
                    ExecMarker::Managed(d) => {
                        let arrays = match (want, &value, &d) {
                            (ExecValue::Arr(w), ExecValue::Arr(cur), ExecValue::Arr(dv)) => Some(
                                (w, cur, dv),
                            ),
                            _ => None,
                        };
                        match arrays {
                            Some((w, cur, dv)) => {
                                if !in_order_exec(dv, cur) {
                                    KeyAction::Conflict {
                                        key: pstr,
                                        on_disk: value_text(&value),
                                        default: default_text(&d),
                                    }
                                } else {
                                    let extra = without_exec(cur, dv);
                                    let new_items = add_missing_exec(w, &extra);
                                    if same_lines(&new_items, cur) && same_lines(w, dv) {
                                        KeyAction::InSync { key: pstr }
                                    } else {
                                        let nv = ExecValue::Arr(new_items);
                                        let line = managed_line_exec(key, &nv, want);
                                        lines.set(i, line);
                                        assert(lines_view(lines@) =~= lv.update(
                                            i as int,
                                            managed_line(key@, nv@, want@),
                                        ));
                                        KeyAction::Updated {
                                            key: pstr,
                                            from: value_text(&value),
                                            to: value_text(&nv),
                                        }
                                    }
                                }
                            },
                            None => {
                                if !same_value(&value, &d) {
                                    KeyAction::Conflict {
                                        key: pstr,
                                        on_disk: value_text(&value),
                                        default: default_text(&d),
                                    }
                                } else if same_value(want, &d) {
                                    KeyAction::InSync { key: pstr }
                                } else {
                                    let line = managed_line_exec(key, want, want);
                                    lines.set(i, line);
                                    assert(lines_view(lines@) =~= lv.update(
                                        i as int,
                                        managed_line(key@, want@, want@),
                                    ));
                                    KeyAction::Updated {
                                        key: pstr,
                                        from: value_text(&value),
                                        to: value_text(want),
                                    }
                                }
                            },
                        }
                    },
                    ExecMarker::NoMarker => {
                        if contains_text(omits, &path) {
                            return KeyAction::Omitted { key: pstr };
                        }
                        let line = attach_line_exec(&t, value_end, want);
                        lines.set(i, line);
                        assert(lines_view(lines@) =~= lv.update(
                            i as int,
                            attach_line(strip_eol(lv[i as int]), value_end as int, want@),
                        ));
                        KeyAction::Marked { key: pstr, default: default_text(want) }
                    },
                    _ => {
                        let line = managed_line_exec(key, want, want);
                        lines.set(i, line);
                        assert(lines_view(lines@) =~= lv.update(
                            i as int,
                            managed_line(key@, want@, want@),
                        ));
                        KeyAction::Reemitted { key: pstr, to: value_text(want) }
                    },
                },
                _ => KeyAction::InSync { key: pstr },
            }
        },
        None => {
            if contains_text(omits, &path) {
                KeyAction::Omitted { key: pstr }
            } else {
                let line = managed_line_exec(key, want, want);
                insert_key_exec(lines, section, line);
                KeyAction::Reemitted { key: pstr, to: value_text(want) }
            }
        },
    }
}

/// Reconciles the targets, in order.
fn reconcile_all_exec(
    lines: &mut Vec<Vec<char>>,
    omits: &Vec<Vec<char>>,
    tg: &Vec<(Vec<char>, Vec<char>, ExecValue)>,
) -> (r: Vec<KeyAction>)
    ensures
        (lines_view(final(lines)@), actions_view(r@)) == reconcile_all(
            lines_view(old(lines)@),
            lines_view(omits@),
            tg@.map_values(|t: (Vec<char>, Vec<char>, ExecValue)| target_view(t)),
        ),
{
    let ghost l0 = lines_view(lines@);
    let ghost tv = tg@.map_values(|t: (Vec<char>, Vec<char>, ExecValue)| target_view(t));
    let mut acts: Vec<KeyAction> = Vec::new();
    let mut i: usize = 0;
    assert(tv.take(0) =~= Seq::<Target>::empty());
    assert(actions_view(acts@) =~= Seq::<Action>::empty());
    while i < tg.len()
        invariant
            i <= tg.len(),
            l0 == lines_view(old(lines)@),
            tv == tg@.map_values(|t: (Vec<char>, Vec<char>, ExecValue)| target_view(t)),
            (lines_view(lines@), actions_view(acts@)) == reconcile_all(
                l0,
                lines_view(omits@),
                tv.take(i as int),
            ),
        decreases tg.len() - i,
    {
        assert(tv.take(i + 1).drop_last() =~= tv.take(i as int));
        assert(tv.take(i + 1).last() == target_view(tg@[i as int]));
        let ghost av = actions_view(acts@);
        let a = reconcile_target_exec(lines, omits, &tg[i]);
        acts.push(a);
        assert(actions_view(acts@) =~= av.push(acts@.last()@));
        i += 1;
    }
    assert(tv.take(tg.len() as int) =~= tv);
    acts
}

/// Whether some target has path `p`.
fn is_target_path_exec(tg: &Vec<(Vec<char>, Vec<char>, ExecValue)>, p: &Vec<char>) -> (r: bool)
    ensures
        r == is_target_path(tg@.map_values(|t: (Vec<char>, Vec<char>, ExecValue)| target_view(t)), p@),
{
    let ghost tv = tg@.map_values(|t: (Vec<char>, Vec<char>, ExecValue)| target_view(t));
    let mut i: usize = 0;
    while i < tg.len()
        invariant
            i <= tg.len(),
            tv == tg@.map_values(|t: (Vec<char>, Vec<char>, ExecValue)| target_view(t)),
            forall|k: int| 0 <= k < i ==> key_path(tv[k].0, tv[k].1) != p@,
        decreases tg.len() - i,
    {
        let kp = key_path_exec(&tg[i].0, &tg[i].1);
        assert(tv[i as int] == target_view(tg@[i as int]));
        if same_chars(&kp, p) {
            return true;
        }
        i += 1;
    }
    false
}

/// Removes the managed keys yard no longer wants.
fn removal_exec(lines: &Vec<Vec<char>>, tg: &Vec<(Vec<char>, Vec<char>, ExecValue)>) -> (r: (
    Vec<Vec<char>>,
    Vec<KeyAction>,
))
    ensures
        (lines_view(r.0@), actions_view(r.1@)) == removal_upto(
            lines_view(lines@),
            tg@.map_values(|t: (Vec<char>, Vec<char>, ExecValue)| target_view(t)),
            lines@.len() as int,
        ),
{
    let ghost lv = lines_view(lines@);
    let ghost tv = tg@.map_values(|t: (Vec<char>, Vec<char>, ExecValue)| target_view(t));
    let mut out: Vec<Vec<char>> = Vec::new();
    let mut acts: Vec<KeyAction> = Vec::new();
    let mut cur: Vec<char> = Vec::new();
    let mut i: usize = 0;
    assert(cur@ =~= section_before(lv, 0));
    assert(lines_view(out@) =~= Seq::<Seq<char>>::empty());
    assert(actions_view(acts@) =~= Seq::<Action>::empty());
    while i < lines.len()
        invariant
            i <= lines.len(),
            lv == lines_view(lines@),
            tv == tg@.map_values(|t: (Vec<char>, Vec<char>, ExecValue)| target_view(t)),
            cur@ == section_before(lv, i as int),
            (lines_view(out@), actions_view(acts@)) == removal_upto(lv, tv, i as int),
        decreases lines.len() - i,
    {
        let ghost ov = lines_view(out@);
        let ghost av = actions_view(acts@);
        assert(lv[i as int] == lines@[i as int]@);
        let pl = pline_at_exec(lines, i);
        let mut handled = false;
        match &pl {
            ExecPLine::Header(n) => {
                cur = copy_chars(n);
            },
            ExecPLine::Key { key, value, marker, .. } => {
                let path = key_path_exec(&cur, key);
                if !is_target_path_exec(tg, &path) {
                    match marker {
                        ExecMarker::Managed(d) => {
                            handled = true;
                            if same_value(value, d) {
                                acts.push(
                                    KeyAction::Deleted {
                                        key: crate::text::string_of(&path),
                                        was: value_text(value),
                                    },
                                );
                                assert(lines_view(out@) =~= ov + Seq::<Seq<char>>::empty());
                            } else {
                                let arrays = match (value, d) {
                                    (ExecValue::Arr(cv), ExecValue::Arr(dv)) => Some((cv, dv)),
                                    _ => None,
                                };
                                let mut kept_extra = false;
                                if let Some((cv, dv)) = arrays {
                                    if in_order_exec(dv, cv) {
                                        kept_extra = true;
                                        let extra = ExecValue::Arr(without_exec(cv, dv));
                                        let mut line = copy_chars(key);
                                        push_str(&mut line, " = ");
                                        push_value(&mut line, &extra, false);
                                        line.push('\n');
                                        assert(line@ =~= key@ + " = "@ + render_value(extra@) + seq!['\n']);
                                        let ghost lw = line@;
                                        out.push(line);
                                        assert(lines_view(out@) =~= ov + seq![lw]);
                                        acts.push(
                                            KeyAction::Deleted {
                                                key: crate::text::string_of(&path),
                                                was: value_text(d),
                                            },
                                        );
                                    }
                                }
                                if !kept_extra {
                                    out.push(copy_chars(&lines[i]));
                                    assert(lines_view(out@) =~= ov + seq![lv[i as int]]);
                                    acts.push(
                                        KeyAction::Conflict {
                                            key: crate::text::string_of(&path),
                                            on_disk: value_text(value),
                                            default: default_text(d),
                                        },
                                    );
                                }
                            }
                        },
                        ExecMarker::Overridden => {
                            handled = true;
                            out.push(copy_chars(&lines[i]));
                            acts.push(KeyAction::Overridden { key: crate::text::string_of(&path) });
                        },
                        _ => {},
                    }
                }
            },
            _ => {},
        }
        if !handled {
            out.push(copy_chars(&lines[i]));
        }
        proof {
            assert(lines_view(out@) =~= ov + removal_at(lv, tv, i as int).0);
            assert(actions_view(acts@) =~= match removal_at(lv, tv, i as int).1 {
                Some(x) => av.push(x),
                None => av,
            });
        }
        i += 1;
    }
    (out, acts)
}

/// The arguments of the omit lines.
fn omit_args_exec(lines: &Vec<Vec<char>>) -> (r: Vec<Vec<char>>)
    ensures
        lines_view(r@) == omit_args(lines_view(lines@), lines@.len() as int),
{
    let ghost lv = lines_view(lines@);
    let mut r: Vec<Vec<char>> = Vec::new();
    let mut i: usize = 0;
    assert(lines_view(r@) =~= Seq::<Seq<char>>::empty());
    while i < lines.len()
        invariant
            i <= lines.len(),
            lv == lines_view(lines@),
            lines_view(r@) == omit_args(lv, i as int),
        decreases lines.len() - i,
    {
        let pl = pline_at_exec(lines, i);
        if let ExecPLine::Omit(a) = pl {
            let ghost before = lines_view(r@);
            r.push(a);
            assert(lines_view(r@) =~= before.push(r@.last()@));
        }
        i += 1;
    }
    r
}

/// `prefix + arg + suffix` as a `String`.
fn framed(prefix: &str, arg: &Vec<char>, suffix: &str) -> (r: String)
    ensures
        r@ == prefix@ + arg@ + suffix@,
{
    let mut out: Vec<char> = Vec::new();
    push_str(&mut out, prefix);
    push_all(&mut out, arg);
    push_str(&mut out, suffix);
    crate::text::string_of(&out)
}

/// Actions and warnings for omit lines naming nothing yard wants.
fn omit_report_exec(omits: &Vec<Vec<char>>, tg: &Vec<(Vec<char>, Vec<char>, ExecValue)>) -> (r: (
    Vec<KeyAction>,
    Vec<String>,
))
    ensures
        (actions_view(r.0@), crate::adaptors::strings_view(r.1@)) == omit_report(
            lines_view(omits@),
            tg@.map_values(|t: (Vec<char>, Vec<char>, ExecValue)| target_view(t)),
        ),
{
    let ghost ov = lines_view(omits@);
    let ghost tv = tg@.map_values(|t: (Vec<char>, Vec<char>, ExecValue)| target_view(t));
    let mut acts: Vec<KeyAction> = Vec::new();
    let mut warns: Vec<String> = Vec::new();
    let mut i: usize = 0;
    assert(ov.take(0) =~= Seq::<Seq<char>>::empty());
    assert(actions_view(acts@) =~= Seq::<Action>::empty());
    assert(crate::adaptors::strings_view(warns@) =~= Seq::<Seq<char>>::empty());
    while i < omits.len()
        invariant
            i <= omits.len(),
            ov == lines_view(omits@),
            tv == tg@.map_values(|t: (Vec<char>, Vec<char>, ExecValue)| target_view(t)),
            (actions_view(acts@), crate::adaptors::strings_view(warns@)) == omit_report(
                ov.take(i as int),
                tv,
            ),
        decreases omits.len() - i,
    {
        assert(ov.take(i + 1).drop_last() =~= ov.take(i as int));
        assert(ov.take(i + 1).last() == omits@[i as int]@);
        let ghost av = actions_view(acts@);
        let ghost wv = crate::adaptors::strings_view(warns@);
        let arg = &omits[i];
        assert(arg@.subrange(0, arg@.len() as int) =~= arg@);
        if !is_valid_path_exec(arg, 0, arg.len()) {
            warns.push(framed("ignoring `# yard:omit ", arg, "`: not a dotted key path"));
            assert(crate::adaptors::strings_view(warns@) =~= wv.push(warns@.last()@));
        } else if !is_target_path_exec(tg, arg) {
            acts.push(KeyAction::Omitted { key: crate::text::string_of(arg) });
            warns.push(
                framed("`# yard:omit ", arg, "` names no key yard manages in pixi.toml; the line can go"),
            );
            assert(actions_view(acts@) =~= av.push(acts@.last()@));
            assert(crate::adaptors::strings_view(warns@) =~= wv.push(warns@.last()@));
        }
        i += 1;
    }
    assert(ov.take(omits.len() as int) =~= ov);
    (acts, warns)
}

/// The key a line assigns where yard cannot read the value, if any.
fn unreadable_key_exec(t: &Vec<char>) -> (r: Option<Vec<char>>)
    ensures
        match r {
            None => unreadable_key(t@) is None,
            Some(k) => unreadable_key(t@) == Some(k@),
        },
{
    let pl = classify_pline_exec(t);
    match pl {
        ExecPLine::Other => {},
        _ => {
            return None;
        },
    }
    let i0 = skip_ws_exec(t, 0);
    let ke = super::lines::key_end_exec(t, i0);
    if ke <= i0 {
        return None;
    }
    let eq = skip_ws_exec(t, ke);
    if eq < t.len() && t[eq] == '=' {
        Some(crate::text::slice_of(t, i0, ke))
    } else {
        None
    }
}

/// The first line (1-based) that assigns a key at a target's path with a
/// value yard cannot read, if any.
fn unreadable_target_exec(lines: &Vec<Vec<char>>, tg: &Vec<(Vec<char>, Vec<char>, ExecValue)>) -> (r: Option<usize>)
    ensures
        match r {
            None => unreadable_target_from(
                lines_view(lines@),
                tg@.map_values(|t: (Vec<char>, Vec<char>, ExecValue)| target_view(t)),
                0,
            ) is None,
            Some(n) => unreadable_target_from(
                lines_view(lines@),
                tg@.map_values(|t: (Vec<char>, Vec<char>, ExecValue)| target_view(t)),
                0,
            ) == Some(n as int),
        },
{
    let ghost lv = lines_view(lines@);
    let ghost tv = tg@.map_values(|t: (Vec<char>, Vec<char>, ExecValue)| target_view(t));
    let mut cur: Vec<char> = Vec::new();
    let mut i: usize = 0;
    assert(cur@ =~= section_before(lv, 0));
    while i < lines.len()
        invariant
            i <= lines.len(),
            lv == lines_view(lines@),
            tv == tg@.map_values(|t: (Vec<char>, Vec<char>, ExecValue)| target_view(t)),
            cur@ == section_before(lv, i as int),
            unreadable_target_from(lv, tv, 0) == unreadable_target_from(lv, tv, i as int),
        decreases lines.len() - i,
    {
        assert(lv[i as int] == lines@[i as int]@);
        let t = strip_eol_exec(&lines[i]);
        match unreadable_key_exec(&t) {
            Some(k) => {
                let path = key_path_exec(&cur, &k);
                if is_target_path_exec(tg, &path) {
                    return Some(i + 1);
                }
            },
            None => {},
        }
        let pl = pline_at_exec(lines, i);
        match &pl {
            ExecPLine::Header(n) => {
                cur = copy_chars(n);
            },
            _ => {},
        }
        i += 1;
    }
    None
}

/// The first key line (1-based) that carries a yard marker while an omit
/// line names its path, as [`marked_omit_from`] finds it.
fn marked_omit_exec(lines: &Vec<Vec<char>>, omits: &Vec<Vec<char>>) -> (r: Option<usize>)
    ensures
        match r {
            None => marked_omit_from(lines_view(lines@), lines_view(omits@), 0) is None,
            Some(n) => marked_omit_from(lines_view(lines@), lines_view(omits@), 0) == Some(n as int),
        },
{
    let ghost lv = lines_view(lines@);
    let ghost ov = lines_view(omits@);
    let mut cur: Vec<char> = Vec::new();
    let mut i: usize = 0;
    assert(cur@ =~= section_before(lv, 0));
    while i < lines.len()
        invariant
            i <= lines.len(),
            lv == lines_view(lines@),
            ov == lines_view(omits@),
            cur@ == section_before(lv, i as int),
            marked_omit_from(lv, ov, 0) == marked_omit_from(lv, ov, i as int),
        decreases lines.len() - i,
    {
        let pl = pline_at_exec(lines, i);
        match &pl {
            ExecPLine::Header(n) => {
                cur = copy_chars(n);
            },
            ExecPLine::Key { key, marker, .. } => {
                let marked = match marker {
                    ExecMarker::NoMarker => false,
                    _ => true,
                };
                if marked {
                    let path = key_path_exec(&cur, key);
                    if contains_text(omits, &path) {
                        return Some(i + 1);
                    }
                }
            },
            _ => {},
        }
        i += 1;
    }
    None
}

/// Executable counterpart of [`PixiErrKind`] for marker errors: the kind
/// (`true` for a missing `default=`) and the 1-based line.
fn marker_error_exec(lines: &Vec<Vec<char>>) -> (r: Option<(bool, usize)>)
    ensures
        match r {
            None => marker_error_from(lines_view(lines@), 0) is None,
            Some((missing, line)) => marker_error_from(lines_view(lines@), 0) == Some(
                if missing {
                    PixiErrKind::ManagedMissingDefault(line as int)
                } else {
                    PixiErrKind::DefaultShapeMismatch(line as int)
                },
            ),
        },
{
    let ghost lv = lines_view(lines@);
    let mut i: usize = 0;
    while i < lines.len()
        invariant
            i <= lines.len(),
            lv == lines_view(lines@),
            marker_error_from(lv, 0) == marker_error_from(lv, i as int),
        decreases lines.len() - i,
    {
        let pl = pline_at_exec(lines, i);
        match pl {
            ExecPLine::Key { value, marker, .. } => match marker {
                ExecMarker::ManagedNoDefault => {
                    return Some((true, i + 1));
                },
                ExecMarker::Managed(d) => {
                    let vs = match value {
                        ExecValue::Str(_) => true,
                        _ => false,
                    };
                    let ds = match d {
                        ExecValue::Str(_) => true,
                        _ => false,
                    };
                    if vs != ds {
                        return Some((false, i + 1));
                    }
                },
                _ => {},
            },
            _ => {},
        }
        i += 1;
    }
    None
}

/// The texts of a list of strings.
fn chars_of_strings(v: &Vec<String>) -> (r: Vec<Vec<char>>)
    ensures
        lines_view(r@) == crate::adaptors::strings_view(v@),
{
    let mut r: Vec<Vec<char>> = Vec::new();
    let mut i: usize = 0;
    while i < v.len()
        invariant
            i <= v.len(),
            lines_view(r@) == crate::adaptors::strings_view(v@).take(i as int),
        decreases v.len() - i,
    {
        let ghost before = lines_view(r@);
        r.push(chars_of(v[i].as_str()));
        assert(lines_view(r@) =~= before.push(v@[i as int]@));
        assert(crate::adaptors::strings_view(v@).take(i + 1) =~= crate::adaptors::strings_view(
            v@,
        ).take(i as int).push(v@[i as int]@));
        i += 1;
    }
    assert(crate::adaptors::strings_view(v@).take(v.len() as int) =~= crate::adaptors::strings_view(v@));
    r
}

/// The managed keys of the merged intent, in reconciliation order.
fn targets_exec(d: &PixiDesired) -> (r: Vec<(Vec<char>, Vec<char>, ExecValue)>)
    ensures
        r@.map_values(|t: (Vec<char>, Vec<char>, ExecValue)| target_view(t)) == targets(d@),
{
    let mut r: Vec<(Vec<char>, Vec<char>, ExecValue)> = Vec::new();
    let ghost dv = d@;
    let ghost t1: Seq<Target> = match dv.workspace_name {
        Some(v) => seq![("workspace"@, "name"@, Value::Str(v))],
        None => seq![],
    };
    let ghost t2: Seq<Target> = if dv.channels.len() > 0 {
        seq![("workspace"@, "channels"@, Value::Arr(dv.channels))]
    } else {
        seq![]
    };
    let ghost t3: Seq<Target> = dv.dependencies.map_values(
        |p: (Seq<char>, Seq<char>)| ("dependencies"@, p.0, Value::Str(p.1)),
    );
    match &d.workspace_name {
        Some(v) => {
            r.push((chars_of("workspace"), chars_of("name"), ExecValue::Str(chars_of(v.as_str()))));
        },
        None => {},
    }
    assert(r@.map_values(|t: (Vec<char>, Vec<char>, ExecValue)| target_view(t)) =~= t1);
    if d.channels.len() > 0 {
        let ghost before = r@.map_values(|t: (Vec<char>, Vec<char>, ExecValue)| target_view(t));
        r.push((chars_of("workspace"), chars_of("channels"), ExecValue::Arr(chars_of_strings(&d.channels))));
        assert(r@.map_values(|t: (Vec<char>, Vec<char>, ExecValue)| target_view(t)) =~= before.push(
            target_view(r@.last()),
        ));
    }
    assert(r@.map_values(|t: (Vec<char>, Vec<char>, ExecValue)| target_view(t)) =~= t1 + t2);
    let mut i: usize = 0;
    while i < d.dependencies.len()
        invariant
            i <= d.dependencies.len(),
            dv == d@,
            t3 == dv.dependencies.map_values(
                |p: (Seq<char>, Seq<char>)| ("dependencies"@, p.0, Value::Str(p.1)),
            ),
            r@.map_values(|t: (Vec<char>, Vec<char>, ExecValue)| target_view(t)) == t1 + t2 + t3.take(i as int),
        decreases d.dependencies.len() - i,
    {
        let ghost before = r@.map_values(|t: (Vec<char>, Vec<char>, ExecValue)| target_view(t));
        let (k, v) = &d.dependencies[i];
        r.push((chars_of("dependencies"), chars_of(k.as_str()), ExecValue::Str(chars_of(v.as_str()))));
        assert(t3[i as int] == ("dependencies"@, k@, Value::Str(v@)));
        assert(t3.take(i + 1) =~= t3.take(i as int).push(t3[i as int]));
        assert(r@.map_values(|t: (Vec<char>, Vec<char>, ExecValue)| target_view(t)) =~= before.push(
            target_view(r@.last()),
        ));
        i += 1;
    }
    assert(t3.take(d.dependencies.len() as int) =~= t3);
    r
}

/// The text of a list of lines.
fn concat_exec(lines: &Vec<Vec<char>>) -> (r: Vec<char>)
    ensures
        r@ == concat(lines_view(lines@)),
{
    let ghost lv = lines_view(lines@);
    let mut out: Vec<char> = Vec::new();
    let mut i: usize = 0;
    assert(lv.take(0) =~= Seq::<Seq<char>>::empty());
    while i < lines.len()
        invariant
            i <= lines.len(),
            lv == lines_view(lines@),
            out@ == concat(lv.take(i as int)),
        decreases lines.len() - i,
    {
        assert(lv.take(i + 1).drop_last() =~= lv.take(i as int));
        assert(lv.take(i + 1).last() == lines@[i as int]@);
        push_all(&mut out, &lines[i]);
        i += 1;
    }
    assert(lv.take(lines.len() as int) =~= lv);
    out
}

/// Reconciles the merged intent against the existing `pixi.toml`, as
/// [`plan_pixi`] states.
pub fn plan_pixi_exec(desired: &PixiDesired, existing: Option<&str>) -> (r: Result<
    crate::adaptors::ApplyOutcome,
    PixiParseError,
>)
    ensures
        match r {
            Ok(o) => plan_pixi(desired@, crate::adaptors::gitignore::opt_view(existing)) == Ok::<Outcome, PixiErrKind>(o@),
            Err(e) => plan_pixi(desired@, crate::adaptors::gitignore::opt_view(existing)) == Err::<Outcome, PixiErrKind>(e.kind@),
        },
{
    let text: &str = match existing {
        Some(c) => c,
        None => "",
    };
    let content = chars_of(text);
    proof {
        reveal_strlit("");
        assert(content@ == match crate::adaptors::gitignore::opt_view(existing) {
            Some(c) => c,
            None => Seq::<char>::empty(),
        });
    }
    match existing {
        Some(c) => match toml_check(c) {
            Some(msg) => {
                return Err(PixiParseError { kind: PixiParseErrorKind::InvalidToml(msg) });
            },
            None => {},
        },
        None => {},
    }
    let lines0 = crate::text::split_lines(&content);
    assert(lines_view(lines0@) =~= lines_of(content@));
    match marker_error_exec(&lines0) {
        Some((missing, line)) => {
            let kind = if missing {
                PixiParseErrorKind::ManagedMissingDefault { line }
            } else {
                PixiParseErrorKind::DefaultShapeMismatch { line }
            };
            return Err(PixiParseError { kind });
        },
        None => {},
    }
    let omits = omit_args_exec(&lines0);
    match marked_omit_exec(&lines0, &omits) {
        Some(line) => {
            return Err(PixiParseError { kind: PixiParseErrorKind::MarkedAndOmitted { line } });
        },
        None => {},
    }
    let tg = targets_exec(desired);
    match unreadable_target_exec(&lines0, &tg) {
        Some(line) => {
            return Err(PixiParseError { kind: PixiParseErrorKind::UnreadableValue { line } });
        },
        None => {},
    }
    let mut lines = copy_lines(&lines0);
    let mut actions = reconcile_all_exec(&mut lines, &omits, &tg);
    let (l2, mut a2) = removal_exec(&lines, &tg);
    let (mut a3, warnings) = omit_report_exec(&omits, &tg);
    let ghost av1 = actions_view(actions@);
    let ghost av2 = actions_view(a2@);
    let ghost av3 = actions_view(a3@);
    actions.append(&mut a2);
    actions.append(&mut a3);
    assert(actions_view(actions@) =~= av1 + av2 + av3);
    let contents = if existing.is_none() && tg.len() == 0 {
        None
    } else {
        Some(crate::text::string_of(&concat_exec(&l2)))
    };
    assert(tg@.map_values(|t: (Vec<char>, Vec<char>, ExecValue)| target_view(t)).len() == tg@.len());
    Ok(crate::adaptors::ApplyOutcome { contents, actions, warnings })
}

} // verus!
