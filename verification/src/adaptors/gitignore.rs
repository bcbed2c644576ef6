//! `.gitignore` adaptor — block-fencing marking strategy.
//!
//! yard owns the lines inside each `# >>> yard:managed id=<slug> >>>` /
//! `# <<< yard:managed id=<slug> <<<` block. Everything outside is the
//! user's and is preserved verbatim. A fence whose markers are rewritten as
//! `yard:overridden id=<slug>` is the user taking the block over — yard never
//! touches its interior. A `# yard:omit <id>` line tells yard not to emit the
//! block with that id.
use vstd::prelude::*;

pub mod fences;
pub mod laws;

use crate::adaptors::{Action, ApplyOutcome, KeyAction, Outcome, actions_view, strings_view};
use crate::text::{chars_of, concat, push_all, push_str, same_chars, string_of};
use crate::RuntimeContext;
use self::fences::{
    FenceKind, GitignoreParseError, Line, LineClass, Seg, Segment, classify, classify_line,
    close_prefix, close_suffix, find_fence, is_fence_with_id, is_valid_slug, is_valid_slug_from, managed_tag,
    open_prefix, open_suffix,
    parse_segments, parse_segments_exec, segs_view, strip_eol_exec,
};

verus! {

/// Fragment a module wants merged into the gitignore. Targets one fence —
/// `id` names the block (`[A-Za-z0-9_-]+`); `lines` are raw gitignore
/// patterns (e.g. `"build/"`) yard will own inside that fence.
#[derive(Clone, Debug, PartialEq, Eq, Default)]
pub struct GitignoreContribution {
    pub id: String,
    pub lines: Vec<String>,
}

/// One managed fence the adaptor will write: an id plus the lines inside.
#[derive(Clone, Debug, PartialEq, Eq, Default)]
pub struct DesiredFence {
    pub id: String,
    pub lines: Vec<String>,
}

/// Merged intent the adaptor reconciles against the on-disk gitignore.
///
/// Fences are grouped by id: the first contribution with a given id fixes
/// the fence's position; later contributions with the same id append the
/// lines the fence does not hold yet. Different ids stay separate.
#[derive(Clone, Debug, PartialEq, Eq, Default)]
pub struct GitignoreDesired {
    pub fences: Vec<DesiredFence>,
}

/// A fence as its id and its lines.
pub type FenceSpec = (Seq<char>, Seq<Seq<char>>);

impl GitignoreContribution {
    pub open spec fn view(&self) -> FenceSpec {
        (self.id@, strings_view(self.lines@))
    }
}

impl DesiredFence {
    pub open spec fn view(&self) -> FenceSpec {
        (self.id@, strings_view(self.lines@))
    }
}

impl GitignoreDesired {
    pub open spec fn view(&self) -> Seq<FenceSpec> {
        self.fences@.map_values(|f: DesiredFence| f@)
    }
}

/// The spec views of a list of contributions.
pub open spec fn contributions_view(cs: Seq<GitignoreContribution>) -> Seq<FenceSpec> {
    cs.map_values(|c: GitignoreContribution| c@)
}

/// Index of the first fence in `fs[j..]` with id `id`, or -1.
pub open spec fn index_of_id_from(fs: Seq<FenceSpec>, id: Seq<char>, j: int) -> int
    decreases fs.len() - j,
{
    if j < 0 || j >= fs.len() {
        -1
    } else if fs[j].0 == id {
        j
    } else {
        index_of_id_from(fs, id, j + 1)
    }
}

/// What [`index_of_id_from`] finds: -1, or the first index at or after `j`
/// holding `id`.
pub proof fn lemma_index_of_id_from(fs: Seq<FenceSpec>, id: Seq<char>, j: int)
    requires
        0 <= j,
    ensures
        index_of_id_from(fs, id, j) == -1 || (j <= index_of_id_from(fs, id, j) < fs.len()
            && fs[index_of_id_from(fs, id, j)].0 == id),
        index_of_id_from(fs, id, j) == -1 ==> forall|k: int| j <= k < fs.len() ==> fs[k].0 != id,
        forall|k: int| j <= k < index_of_id_from(fs, id, j) ==> fs[k].0 != id,
    decreases fs.len() - j,
{
    if j < fs.len() && fs[j].0 != id {
        lemma_index_of_id_from(fs, id, j + 1);
    }
}

/// Index of the first fence in `fs` with id `id`, or -1.
pub open spec fn index_of_id(fs: Seq<FenceSpec>, id: Seq<char>) -> int {
    index_of_id_from(fs, id, 0)
}

/// `lines` followed by those of `new` it does not hold yet, in order and
/// each once.
pub open spec fn add_missing(lines: Seq<Seq<char>>, new: Seq<Seq<char>>) -> Seq<Seq<char>>
    decreases new.len(),
{
    if new.len() == 0 {
        lines
    } else {
        let before = add_missing(lines, new.drop_last());
        if before.contains(new.last()) {
            before
        } else {
            before.push(new.last())
        }
    }
}

/// Folds one contribution into the fences merged so far.
pub open spec fn merge_one(fs: Seq<FenceSpec>, c: FenceSpec) -> Seq<FenceSpec> {
    let k = index_of_id(fs, c.0);
    if k >= 0 {
        fs.update(k, (c.0, add_missing(fs[k].1, c.1)))
    } else {
        fs.push(c)
    }
}

/// The fences merged from `cs`, in order.
pub open spec fn merge_all(cs: Seq<FenceSpec>) -> Seq<FenceSpec>
    decreases cs.len(),
{
    if cs.len() == 0 {
        seq![]
    } else {
        merge_one(merge_all(cs.drop_last()), cs.last())
    }
}

/// A copy of `v`.
fn clone_strings(v: &Vec<String>) -> (r: Vec<String>)
    ensures
        r@ == v@,
{
    let mut r: Vec<String> = Vec::new();
    let mut i: usize = 0;
    while i < v.len()
        invariant
            i <= v.len(),
            r@ == v@.take(i as int),
        decreases v.len() - i,
    {
        r.push(v[i].clone());
        i += 1;
        assert(v@.take(i as int) == v@.take((i - 1) as int).push(v@[i - 1]));
    }
    assert(v@.take(v.len() as int) == v@);
    r
}

/// Whether `v` holds a string equal to `s`.
fn contains_string(v: &Vec<String>, s: &String) -> (r: bool)
    ensures
        r == strings_view(v@).contains(s@),
{
    let mut i: usize = 0;
    while i < v.len()
        invariant
            i <= v.len(),
            forall|k: int| 0 <= k < i ==> v@[k]@ != s@,
        decreases v.len() - i,
    {
        if v[i] == *s {
            assert(strings_view(v@)[i as int] == s@);
            return true;
        }
        i += 1;
    }
    assert forall|k: int| 0 <= k < strings_view(v@).len() implies strings_view(v@)[k] != s@ by {
        assert(strings_view(v@)[k] == v@[k]@);
    }
    false
}

/// Index of the first fence in `fs` with id `id`.
fn index_of_fence(fs: &Vec<DesiredFence>, id: &String) -> (r: Option<usize>)
    ensures
        match r {
            Some(k) => index_of_id(fs@.map_values(|f: DesiredFence| f@), id@) == k && k < fs@.len(),
            None => index_of_id(fs@.map_values(|f: DesiredFence| f@), id@) == -1,
        },
{
    proof {
        lemma_index_of_id_from(fs@.map_values(|f: DesiredFence| f@), id@, 0);
    }
    let ghost fv = fs@.map_values(|f: DesiredFence| f@);
    let mut i: usize = 0;
    while i < fs.len()
        invariant
            i <= fs.len(),
            fv == fs@.map_values(|f: DesiredFence| f@),
            index_of_id(fv, id@) == index_of_id_from(fv, id@, i as int),
        decreases fs.len() - i,
    {
        assert(fv[i as int].0 == fs@[i as int].id@);
        if fs[i].id == *id {
            return Some(i);
        }
        i += 1;
    }
    None
}

impl GitignoreDesired {
    /// Merges contributions into fences grouped by id, in order of first
    /// appearance; a later contribution to an existing id adds the lines
    /// that fence does not hold yet.
    pub fn from_contributions(contribs: Vec<GitignoreContribution>) -> (r: Self)
        ensures
            r@ == merge_all(contributions_view(contribs@)),
    {
        let ghost cv = contributions_view(contribs@);
        let mut fences: Vec<DesiredFence> = Vec::new();
        let mut i: usize = 0;
        assert(fences@.map_values(|f: DesiredFence| f@) =~= merge_all(cv.take(0)));
        while i < contribs.len()
            invariant
                i <= contribs.len(),
                cv == contributions_view(contribs@),
                fences@.map_values(|f: DesiredFence| f@) == merge_all(cv.take(i as int)),
            decreases contribs.len() - i,
        {
            let c = &contribs[i];
            let ghost before = fences@.map_values(|f: DesiredFence| f@);
            assert(cv.take(i + 1).drop_last() =~= cv.take(i as int));
            assert(cv.take(i + 1).last() == c@);
            match index_of_fence(&fences, &c.id) {
                Some(k) => {
                    let mut f = DesiredFence { id: String::new(), lines: Vec::new() };
                    fences.set_and_swap(k, &mut f);
                    proof {
                        lemma_index_of_id_from(before, c@.0, 0);
                        assert(f@ == before[k as int]);
                    }
                    let ghost start = strings_view(f.lines@);
                    let ghost fid = f.id@;
                    let mut j: usize = 0;
                    assert(c@.1.take(0) =~= Seq::<Seq<char>>::empty());
                    while j < c.lines.len()
                        invariant
                            j <= c.lines.len(),
                            strings_view(f.lines@) == add_missing(start, strings_view(c.lines@).take(j as int)),
                            f.id@ == fid,
                        decreases c.lines.len() - j,
                    {
                        let ghost cl = strings_view(c.lines@);
                        assert(cl.take(j + 1).drop_last() =~= cl.take(j as int));
                        assert(cl.take(j + 1).last() == c.lines@[j as int]@);
                        if !contains_string(&f.lines, &c.lines[j]) {
                            f.lines.push(c.lines[j].clone());
                            assert(strings_view(f.lines@) =~= add_missing(start, cl.take(j as int)).push(c.lines@[j as int]@));
                        }
                        j += 1;
                    }
                    assert(strings_view(c.lines@).take(c.lines.len() as int) =~= strings_view(c.lines@));
                    fences.set_and_swap(k, &mut f);
                    proof {
                        assert(before[k as int].0 == c@.0);
                        assert(fences@.map_values(|f: DesiredFence| f@) =~= before.update(
                            k as int,
                            (c@.0, add_missing(before[k as int].1, c@.1)),
                        ));
                    }
                },
                None => {
                    fences.push(DesiredFence { id: c.id.clone(), lines: clone_strings(&c.lines) });
                    assert(fences@.map_values(|f: DesiredFence| f@) =~= before.push(c@));
                },
            }
            i += 1;
        }
        assert(cv.take(contribs.len() as int) =~= cv);
        GitignoreDesired { fences }
    }
}

// ---------------------------------------------------------------------------
// What `apply` does, stated over user lines and fences.
// ---------------------------------------------------------------------------

/// The lines of a fence joined by `'\n'` (no trailing newline).
pub open spec fn join_lines(ls: Seq<Seq<char>>) -> Seq<char>
    decreases ls.len(),
{
    if ls.len() == 0 {
        seq![]
    } else if ls.len() == 1 {
        ls[0]
    } else {
        join_lines(ls.drop_last()) + seq!['\n'] + ls.last()
    }
}

/// `# >>> yard:managed id=<id> >>>`
pub open spec fn open_line(id: Seq<char>) -> Seq<char> {
    open_prefix() + managed_tag() + id + open_suffix()
}

/// `# <<< yard:managed id=<id> <<<`
pub open spec fn close_line(id: Seq<char>) -> Seq<char> {
    close_prefix() + managed_tag() + id + close_suffix()
}

/// The text of a managed fence holding `inner`, ending with `'\n'`.
pub open spec fn render_block(id: Seq<char>, inner: Seq<char>) -> Seq<char> {
    open_line(id) + seq!['\n'] + (if inner.len() == 0 {
        Seq::<char>::empty()
    } else {
        inner + seq!['\n']
    }) + close_line(id) + seq!['\n']
}

/// A freshly written managed fence.
pub open spec fn managed_fence(id: Seq<char>, inner: Seq<char>) -> Seg {
    Seg::Fence { kind: FenceKind::Managed, id: id, raw: render_block(id, inner), inner: inner }
}

/// The text of a piece.
pub open spec fn seg_raw(s: Seg) -> Seq<char> {
    match s {
        Seg::Text(l) => l,
        Seg::Fence { raw, .. } => raw,
    }
}

/// The text of a file made of `segs`.
pub open spec fn render(segs: Seq<Seg>) -> Seq<char> {
    concat(segs.map_values(|s: Seg| seg_raw(s)))
}

/// `t` ends with a newline.
pub open spec fn ends_nl(t: Seq<char>) -> bool {
    t.len() > 0 && t.last() == '\n'
}

/// `s` with a `'\n'` added to its text.
pub open spec fn with_newline(s: Seg) -> Seg {
    match s {
        Seg::Text(l) => Seg::Text(l.push('\n')),
        Seg::Fence { kind, id, raw, inner } => Seg::Fence {
            kind: kind,
            id: id,
            raw: raw.push('\n'),
            inner: inner,
        },
    }
}

/// Appends a managed fence at the end of the file, after a blank line
/// (and after terminating the last line if it has no newline).
pub open spec fn append_fence(segs: Seq<Seg>, id: Seq<char>, inner: Seq<char>) -> Seq<Seg> {
    if segs.len() == 0 {
        seq![managed_fence(id, inner)]
    } else {
        let fixed = if ends_nl(seg_raw(segs.last())) {
            segs
        } else {
            segs.update(segs.len() - 1, with_newline(segs.last()))
        };
        fixed.push(Seg::Text(seq!['\n'])).push(managed_fence(id, inner))
    }
}

/// Index of the first fence in `segs[j..]` with id `id`, or -1.
pub open spec fn fence_index_from(segs: Seq<Seg>, id: Seq<char>, j: int) -> int
    decreases segs.len() - j,
{
    if j < 0 || j >= segs.len() {
        -1
    } else if is_fence_with_id(segs[j], id) {
        j
    } else {
        fence_index_from(segs, id, j + 1)
    }
}

/// The arguments of the `# yard:omit <arg>` lines among `segs`, in order.
pub open spec fn omit_args(segs: Seq<Seg>) -> Seq<Seq<char>>
    decreases segs.len(),
{
    if segs.len() == 0 {
        seq![]
    } else {
        let before = omit_args(segs.drop_last());
        match segs.last() {
            Seg::Text(l) => match classify(crate::text::strip_eol(l)) {
                LineClass::Omit(arg) => before.push(arg),
                _ => before,
            },
            _ => before,
        }
    }
}

/// Reconciles one desired fence against the file: the new pieces and the
/// action taken.
pub open spec fn step(segs: Seq<Seg>, omits: Seq<Seq<char>>, f: FenceSpec) -> (Seq<Seg>, Action) {
    let id = f.0;
    let inner = join_lines(f.1);
    let k = fence_index_from(segs, id, 0);
    if k >= 0 {
        match segs[k] {
            Seg::Fence { kind, inner: cur, .. } => if kind == FenceKind::Overridden {
                (segs, Action::Overridden { key: id })
            } else if cur == inner {
                (segs, Action::InSync { key: id })
            } else {
                (
                    segs.update(k, managed_fence(id, inner)),
                    Action::Updated { key: id, from: cur, to: inner },
                )
            },
            Seg::Text(_) => (segs, Action::InSync { key: id }),
        }
    } else if omits.contains(id) {
        (segs, Action::Omitted { key: id })
    } else {
        (append_fence(segs, id, inner), Action::Reemitted { key: id, to: inner })
    }
}

/// Reconciles the desired fences `fs`, in order.
pub open spec fn apply_desired(segs: Seq<Seg>, omits: Seq<Seq<char>>, fs: Seq<FenceSpec>) -> (
    Seq<Seg>,
    Seq<Action>,
)
    decreases fs.len(),
{
    if fs.len() == 0 {
        (segs, seq![])
    } else {
        let (s1, a1) = apply_desired(segs, omits, fs.drop_last());
        let (s2, a) = step(s1, omits, fs.last());
        (s2, a1.push(a))
    }
}

/// Drops the managed fences whose id is not desired, reporting each as
/// deleted; an overridden fence whose id is not desired stays and is
/// reported overridden.
pub open spec fn remove_stale(segs: Seq<Seg>, fs: Seq<FenceSpec>) -> (Seq<Seg>, Seq<Action>)
    decreases segs.len(),
{
    if segs.len() == 0 {
        (seq![], seq![])
    } else {
        let (kept, acts) = remove_stale(segs.drop_last(), fs);
        let s = segs.last();
        match s {
            Seg::Fence { kind: FenceKind::Managed, id, inner, .. } => if index_of_id(fs, id) < 0 {
                (kept, acts.push(Action::Deleted { key: id, was: inner }))
            } else {
                (kept.push(s), acts)
            },
            Seg::Fence { kind: FenceKind::Overridden, id, .. } => if index_of_id(fs, id) < 0 {
                (kept.push(s), acts.push(Action::Overridden { key: id }))
            } else {
                (kept.push(s), acts)
            },
            _ => (kept.push(s), acts),
        }
    }
}

/// `Omitted` for each omit line whose argument is a valid fence id that
/// names no desired fence: a stale omit.
pub open spec fn omit_actions(omits: Seq<Seq<char>>, fs: Seq<FenceSpec>) -> Seq<Action>
    decreases omits.len(),
{
    if omits.len() == 0 {
        seq![]
    } else {
        let before = omit_actions(omits.drop_last(), fs);
        if is_valid_slug(omits.last()) && index_of_id(fs, omits.last()) < 0 {
            before.push(Action::Omitted { key: omits.last() })
        } else {
            before
        }
    }
}

/// The warning for a `# yard:omit <arg>` line that names no desired block.
pub open spec fn omit_warning(arg: Seq<char>) -> Seq<char> {
    "ignoring `# yard:omit "@ + arg + "`: yard manages no .gitignore block with that id"@
}

/// Warnings for the omit lines whose argument names no desired fence.
pub open spec fn omit_warnings(omits: Seq<Seq<char>>, fs: Seq<FenceSpec>) -> Seq<Seq<char>>
    decreases omits.len(),
{
    if omits.len() == 0 {
        seq![]
    } else {
        let before = omit_warnings(omits.drop_last(), fs);
        if index_of_id(fs, omits.last()) < 0 {
            before.push(omit_warning(omits.last()))
        } else {
            before
        }
    }
}

/// The first line from the `t`-th on (1-based) that a fence cannot hold as
/// written, if any.
pub open spec fn unwritable_line_from(ls: Seq<Seq<char>>, t: int) -> Option<int>
    decreases ls.len() - t,
{
    if t < 0 || t >= ls.len() {
        None
    } else if !laws::fence_line_ok(ls[t]) {
        Some(t + 1)
    } else {
        unwritable_line_from(ls, t + 1)
    }
}

/// Why yard cannot write the desired fences from the `i`-th on, for the
/// first that it cannot write (fences and lines counted from 1): its id is
/// no slug, an earlier fence has its id, or it holds a line that is no
/// single line or reads as a yard marker.
pub open spec fn desired_error_from(fs: Seq<FenceSpec>, i: int) -> Option<GitignoreParseError>
    decreases fs.len() - i,
{
    if i < 0 || i >= fs.len() {
        None
    } else if !is_valid_slug(fs[i].0) {
        Some(GitignoreParseError::InvalidFenceId { fence: (i + 1) as usize })
    } else if index_of_id(fs, fs[i].0) < i {
        Some(GitignoreParseError::RepeatedFenceId { fence: (i + 1) as usize })
    } else {
        match unwritable_line_from(fs[i].1, 0) {
            Some(t) => Some(GitignoreParseError::UnwritableLine { fence: (i + 1) as usize, line: t as usize }),
            None => desired_error_from(fs, i + 1),
        }
    }
}

/// What reconciling the desired fences `fs` against the existing file
/// yields: desired fences yard could not read back once written (an id
/// that is no slug or repeats, a line that holds a line break or reads as
/// a yard marker) are refused; else
/// the file's pieces are read; each desired fence is kept
/// (overridden or in sync), rewritten (managed, different lines), skipped
/// (omitted) or appended; managed fences no longer desired are removed;
/// overridden fences no longer desired stay and are reported; omit lines
/// that name no desired fence produce warnings, and those naming a valid
/// id are reported omitted. With no file and nothing desired, no file
/// should exist.
pub open spec fn plan_gitignore(fs: Seq<FenceSpec>, existing: Option<Seq<char>>) -> Result<
    Outcome,
    GitignoreParseError,
> {
    let content = match existing {
        Some(c) => c,
        None => seq![],
    };
    match desired_error_from(fs, 0) {
        Some(e) => Err(e),
        None => match parse_segments(content) {
            Err(e) => Err(e),
            Ok(segs) => {
                let omits = omit_args(segs);
                let (s1, a1) = apply_desired(segs, omits, fs);
                let (s2, a2) = remove_stale(s1, fs);
                Ok(
                    Outcome {
                        contents: if existing is None && fs.len() == 0 {
                            None
                        } else {
                            Some(render(s2))
                        },
                        actions: a1 + a2 + omit_actions(omits, fs),
                        warnings: omit_warnings(omits, fs),
                    },
                )
            },
        },
    }
}

/// Whether a fence can hold `l` as written: one line that does not read as
/// a yard marker.
fn writable_line_exec(l: &String) -> (r: bool)
    ensures
        r == laws::fence_line_ok(l@),
{
    let mut v = chars_of(l.as_str());
    let mut k: usize = 0;
    while k < v.len()
        invariant
            k <= v.len(),
            v@ == l@,
            forall|m: int| 0 <= m < k ==> v@[m] != '\n',
        decreases v.len() - k,
    {
        if v[k] == '\n' {
            return false;
        }
        k += 1;
    }
    v.push('\n');
    let t = strip_eol_exec(&v);
    match classify_line(&t) {
        Line::Plain => true,
        Line::Omit(_) => true,
        _ => false,
    }
}

/// Why yard cannot write the desired fences, as [`desired_error_from`]
/// finds it.
fn desired_error_exec(desired: &GitignoreDesired) -> (r: Option<GitignoreParseError>)
    ensures
        r == desired_error_from(desired@, 0),
{
    let ghost fs = desired@;
    let mut i: usize = 0;
    while i < desired.fences.len()
        invariant
            i <= desired.fences.len(),
            fs == desired@,
            fs.len() == desired.fences.len(),
            desired_error_from(fs, 0) == desired_error_from(fs, i as int),
        decreases desired.fences.len() - i,
    {
        let id = chars_of(desired.fences[i].id.as_str());
        assert(fs[i as int].0 == id@);
        assert(id@.skip(0) =~= id@);
        if !is_valid_slug_from(&id, 0) {
            return Some(GitignoreParseError::InvalidFenceId { fence: i + 1 });
        }
        let mut j: usize = 0;
        while j < i
            invariant
                j <= i < desired.fences.len(),
                fs == desired@,
                fs.len() == desired.fences.len(),
                id@ == fs[i as int].0,
                is_valid_slug(fs[i as int].0),
                desired_error_from(fs, 0) == desired_error_from(fs, i as int),
                forall|k: int| 0 <= k < j ==> fs[k].0 != id@,
            decreases i - j,
        {
            let other = chars_of(desired.fences[j].id.as_str());
            assert(fs[j as int].0 == other@);
            if same_chars(&other, &id) {
                proof {
                    lemma_index_of_id_from(fs, id@, 0);
                    assert(index_of_id(fs, fs[i as int].0) < i);
                }
                return Some(GitignoreParseError::RepeatedFenceId { fence: i + 1 });
            }
            j += 1;
        }
        proof {
            lemma_index_of_id_from(fs, id@, 0);
        }
        let ls = &desired.fences[i].lines;
        let ghost lv = fs[i as int].1;
        assert(lv == strings_view(ls@));
        let mut t: usize = 0;
        while t < ls.len()
            invariant
                t <= ls.len(),
                i < desired.fences.len(),
                fs == desired@,
                lv == fs[i as int].1,
                lv == strings_view(ls@),
                fs.len() == desired.fences.len(),
                is_valid_slug(fs[i as int].0),
                !(index_of_id(fs, fs[i as int].0) < i),
                desired_error_from(fs, 0) == desired_error_from(fs, i as int),
                unwritable_line_from(lv, 0) == unwritable_line_from(lv, t as int),
            decreases ls.len() - t,
        {
            assert(lv[t as int] == ls@[t as int]@);
            if !writable_line_exec(&ls[t]) {
                assert(unwritable_line_from(lv, t as int) == Some(t + 1));
                return Some(GitignoreParseError::UnwritableLine { fence: i + 1, line: t + 1 });
            }
            t += 1;
        }
        assert(unwritable_line_from(lv, t as int) is None);
        i += 1;
    }
    assert(desired_error_from(fs, i as int) is None);
    None
}

/// The characters of an optional `&str`.
pub open spec fn opt_view(s: Option<&str>) -> Option<Seq<char>> {
    match s {
        Some(t) => Some(t@),
        None => None,
    }
}

// ---------------------------------------------------------------------------
// Executable reconciliation.
// ---------------------------------------------------------------------------

/// The lines of `lines` joined by `'\n'`.
fn join_lines_exec(lines: &Vec<String>) -> (r: Vec<char>)
    ensures
        r@ == join_lines(strings_view(lines@)),
{
    let ghost lv = strings_view(lines@);
    let mut out: Vec<char> = Vec::new();
    let mut i: usize = 0;
    assert(lv.take(0) =~= Seq::<Seq<char>>::empty());
    while i < lines.len()
        invariant
            i <= lines.len(),
            lv == strings_view(lines@),
            out@ == join_lines(lv.take(i as int)),
        decreases lines.len() - i,
    {
        let l = chars_of(lines[i].as_str());
        assert(lv.take(i + 1).drop_last() =~= lv.take(i as int));
        assert(lv.take(i + 1).last() == lines@[i as int]@);
        if i == 0 {
            assert(lv.take(1).len() == 1);
            assert(out@ =~= Seq::<char>::empty());
            push_all(&mut out, &l);
            assert(out@ =~= l@);
        } else {
            out.push('\n');
            push_all(&mut out, &l);
        }
        i += 1;
    }
    assert(lv.take(lines.len() as int) =~= lv);
    out
}

/// The text of a managed fence holding `inner`.
fn render_block_exec(id: &Vec<char>, inner: &Vec<char>) -> (r: Vec<char>)
    ensures
        r@ == render_block(id@, inner@),
{
    let mut out: Vec<char> = Vec::new();
    push_str(&mut out, "# >>> yard:");
    push_str(&mut out, "managed id=");
    push_all(&mut out, id);
    push_str(&mut out, " >>>");
    out.push('\n');
    let ghost head = out@;
    if inner.len() > 0 {
        push_all(&mut out, inner);
        out.push('\n');
    }
    let ghost mid = out@;
    push_str(&mut out, "# <<< yard:");
    push_str(&mut out, "managed id=");
    push_all(&mut out, id);
    push_str(&mut out, " <<<");
    out.push('\n');
    proof {
        let body = if inner@.len() == 0 {
            Seq::<char>::empty()
        } else {
            inner@ + seq!['\n']
        };
        assert(head =~= open_line(id@) + seq!['\n']);
        assert(mid =~= head + body);
        assert(out@ =~= mid + close_line(id@) + seq!['\n']);
    }
    out
}

/// A copy of `v`.
fn copy_chars(v: &Vec<char>) -> (r: Vec<char>)
    ensures
        r@ == v@,
{
    let r = crate::text::slice_of(v, 0, v.len());
    assert(v@.subrange(0, v@.len() as int) =~= v@);
    r
}

/// The arguments of the omit lines among `segs`.
fn collect_omits(segs: &Vec<Segment>) -> (r: Vec<Vec<char>>)
    ensures
        r@.map_values(|a: Vec<char>| a@) == omit_args(segs_view(segs@)),
{
    let ghost sv = segs_view(segs@);
    let mut r: Vec<Vec<char>> = Vec::new();
    let mut i: usize = 0;
    assert(r@.map_values(|a: Vec<char>| a@) =~= omit_args(sv.take(0)));
    while i < segs.len()
        invariant
            i <= segs.len(),
            sv == segs_view(segs@),
            r@.map_values(|a: Vec<char>| a@) == omit_args(sv.take(i as int)),
        decreases segs.len() - i,
    {
        let ghost before = r@.map_values(|a: Vec<char>| a@);
        assert(sv.take(i + 1).drop_last() =~= sv.take(i as int));
        assert(sv.take(i + 1).last() == segs@[i as int]@);
        match &segs[i] {
            Segment::Text(l) => {
                let t = strip_eol_exec(l);
                match classify_line(&t) {
                    Line::Omit(arg) => {
                        r.push(arg);
                        assert(r@.map_values(|a: Vec<char>| a@) =~= before.push(r@.last()@));
                    },
                    _ => {},
                }
            },
            _ => {},
        }
        i += 1;
    }
    assert(sv.take(segs.len() as int) =~= sv);
    r
}

/// What [`fence_index_from`] finds.
pub proof fn lemma_fence_index_from(segs: Seq<Seg>, id: Seq<char>, j: int)
    requires
        0 <= j,
    ensures
        fence_index_from(segs, id, j) == -1 || (j <= fence_index_from(segs, id, j) < segs.len()
            && is_fence_with_id(segs[fence_index_from(segs, id, j)], id)),
        fence_index_from(segs, id, j) == -1 ==> forall|k: int|
            j <= k < segs.len() ==> !is_fence_with_id(#[trigger] segs[k], id),
        forall|k: int| j <= k < fence_index_from(segs, id, j) ==> !is_fence_with_id(#[trigger] segs[k], id),
    decreases segs.len() - j,
{
    if j < segs.len() && !is_fence_with_id(segs[j], id) {
        lemma_fence_index_from(segs, id, j + 1);
    }
}

/// The first fence with id `id`, as found by [`fence_index_from`].
fn find_fence_index(segs: &Vec<Segment>, id: &Vec<char>) -> (r: Option<usize>)
    ensures
        match r {
            Some(k) => fence_index_from(segs_view(segs@), id@, 0) == k && k < segs@.len(),
            None => fence_index_from(segs_view(segs@), id@, 0) == -1,
        },
{
    let ghost sv = segs_view(segs@);
    proof {
        lemma_fence_index_from(sv, id@, 0);
    }
    let r = find_fence(segs, id);
    proof {
        let f = fence_index_from(sv, id@, 0);
        match r {
            Some(k) => {
                assert(sv[k as int] == segs@[k as int]@);
                assert forall|j: int| 0 <= j < k implies !is_fence_with_id(#[trigger] sv[j], id@) by {
                    assert(sv[j] == segs@[j]@);
                }
                if f != k {
                    if f < k {
                        assert(!is_fence_with_id(sv[f], id@));
                    } else {
                        assert(!is_fence_with_id(sv[k as int], id@));
                    }
                }
            },
            None => {
                if f != -1 {
                    assert(crate::adaptors::gitignore::fences::has_fence_id(sv, id@));
                }
            },
        }
    }
    r
}

/// Whether a desired fence has id `id`.
fn desired_has_id(fs: &Vec<DesiredFence>, id: &Vec<char>) -> (r: bool)
    ensures
        r == (index_of_id(fs@.map_values(|f: DesiredFence| f@), id@) >= 0),
{
    let ghost fv = fs@.map_values(|f: DesiredFence| f@);
    proof {
        lemma_index_of_id_from(fv, id@, 0);
    }
    let mut i: usize = 0;
    while i < fs.len()
        invariant
            i <= fs.len(),
            fv == fs@.map_values(|f: DesiredFence| f@),
            index_of_id(fv, id@) == index_of_id_from(fv, id@, i as int),
        decreases fs.len() - i,
    {
        let fid = chars_of(fs[i].id.as_str());
        assert(fv[i as int].0 == fs@[i as int].id@);
        if same_chars(&fid, id) {
            return true;
        }
        i += 1;
    }
    false
}

/// Appends a managed fence at the end of the file.
fn append_fence_exec(segs: &mut Vec<Segment>, id: &Vec<char>, inner: &Vec<char>)
    ensures
        segs_view(final(segs)@) == append_fence(segs_view(old(segs)@), id@, inner@),
{
    let fence = Segment::Fence {
        kind: FenceKind::Managed,
        id: copy_chars(id),
        raw: render_block_exec(id, inner),
        inner: copy_chars(inner),
    };
    let ghost sv = segs_view(segs@);
    if segs.len() == 0 {
        segs.push(fence);
        assert(segs_view(segs@) =~= seq![managed_fence(id@, inner@)]);
        return;
    }
    let n = segs.len();
    let mut last = Segment::Text(Vec::new());
    segs.set_and_swap(n - 1, &mut last);
    assert(last@ == sv.last());
    let last = match last {
        Segment::Text(mut l) => {
            if !(l.len() > 0 && l[l.len() - 1] == '\n') {
                l.push('\n');
            }
            Segment::Text(l)
        },
        Segment::Fence { kind, id: fid, mut raw, inner: fin } => {
            if !(raw.len() > 0 && raw[raw.len() - 1] == '\n') {
                raw.push('\n');
            }
            Segment::Fence { kind, id: fid, raw, inner: fin }
        },
    };
    let mut last = last;
    segs.set_and_swap(n - 1, &mut last);
    proof {
        let fixed = if ends_nl(seg_raw(sv.last())) {
            sv
        } else {
            sv.update(sv.len() - 1, with_newline(sv.last()))
        };
        assert(segs_view(segs@) =~= fixed);
    }
    let ghost fixed = segs_view(segs@);
    let mut nl: Vec<char> = Vec::new();
    nl.push('\n');
    assert(nl@ =~= seq!['\n']);
    segs.push(Segment::Text(nl));
    segs.push(fence);
    assert(segs_view(segs@) =~= fixed.push(Seg::Text(seq!['\n'])).push(managed_fence(id@, inner@)));
}

/// The text of the file made of `segs`.
fn render_exec(segs: &Vec<Segment>) -> (r: Vec<char>)
    ensures
        r@ == render(segs_view(segs@)),
{
    let ghost sv = segs_view(segs@);
    let mut out: Vec<char> = Vec::new();
    let mut i: usize = 0;
    assert(sv.take(0).map_values(|s: Seg| seg_raw(s)) =~= Seq::<Seq<char>>::empty());
    while i < segs.len()
        invariant
            i <= segs.len(),
            sv == segs_view(segs@),
            out@ == render(sv.take(i as int)),
        decreases segs.len() - i,
    {
        assert(sv.take(i + 1).map_values(|s: Seg| seg_raw(s)).drop_last() =~= sv.take(
            i as int,
        ).map_values(|s: Seg| seg_raw(s)));
        assert(sv.take(i + 1).map_values(|s: Seg| seg_raw(s)).last() == seg_raw(segs@[i as int]@));
        match &segs[i] {
            Segment::Text(l) => push_all(&mut out, l),
            Segment::Fence { raw, .. } => push_all(&mut out, raw),
        }
        i += 1;
    }
    assert(sv.take(segs.len() as int) =~= sv);
    out
}

/// Whether `v` holds `t`.
fn contains_chars(v: &Vec<Vec<char>>, t: &Vec<char>) -> (r: bool)
    ensures
        r == v@.map_values(|a: Vec<char>| a@).contains(t@),
{
    let ghost vv = v@.map_values(|a: Vec<char>| a@);
    let mut i: usize = 0;
    while i < v.len()
        invariant
            i <= v.len(),
            vv == v@.map_values(|a: Vec<char>| a@),
            forall|k: int| 0 <= k < i ==> vv[k] != t@,
        decreases v.len() - i,
    {
        if same_chars(&v[i], t) {
            assert(vv[i as int] == t@);
            return true;
        }
        i += 1;
    }
    false
}

/// The warning for an omit line naming no desired fence.
fn omit_warning_exec(arg: &Vec<char>) -> (r: String)
    ensures
        r@ == omit_warning(arg@),
{
    let mut out: Vec<char> = Vec::new();
    push_str(&mut out, "ignoring `# yard:omit ");
    push_all(&mut out, arg);
    push_str(&mut out, "`: yard manages no .gitignore block with that id");
    string_of(&out)
}

/// Reconciles the desired fences against the pieces of the file, in order.
fn apply_desired_exec(
    segs: &mut Vec<Segment>,
    omits: &Vec<Vec<char>>,
    desired: &GitignoreDesired,
) -> (r: Vec<KeyAction>)
    ensures
        (segs_view(final(segs)@), actions_view(r@)) == apply_desired(
            segs_view(old(segs)@),
            omits@.map_values(|a: Vec<char>| a@),
            desired@,
        ),
{
    let ghost s0 = segs_view(segs@);
    let ghost ov = omits@.map_values(|a: Vec<char>| a@);
    let ghost dv = desired@;
    let mut actions: Vec<KeyAction> = Vec::new();
    let mut i: usize = 0;
    assert(dv.take(0) =~= Seq::<FenceSpec>::empty());
    assert(actions_view(actions@) =~= Seq::<Action>::empty());
    while i < desired.fences.len()
        invariant
            i <= desired.fences.len(),
            s0 == segs_view(old(segs)@),
            ov == omits@.map_values(|a: Vec<char>| a@),
            dv == desired@,
            (segs_view(segs@), actions_view(actions@)) == apply_desired(s0, ov, dv.take(i as int)),
        decreases desired.fences.len() - i,
    {
        let f = &desired.fences[i];
        let id = chars_of(f.id.as_str());
        let inner = join_lines_exec(&f.lines);
        let ghost sv = segs_view(segs@);
        let ghost av = actions_view(actions@);
        proof {
            assert(dv.take(i + 1).drop_last() =~= dv.take(i as int));
            assert(dv.take(i + 1).last() == f@);
            assert(f@.0 == id@);
        }
        match find_fence_index(&segs, &id) {
            Some(k) => {
                assert(sv[k as int] == segs@[k as int]@);
                let (over, same, cur) = match &segs[k] {
                    Segment::Fence { kind, inner: cur, .. } => (
                        *kind == FenceKind::Overridden,
                        same_chars(cur, &inner),
                        copy_chars(cur),
                    ),
                    Segment::Text(_) => (false, true, Vec::new()),
                };
                if over {
                    actions.push(KeyAction::Overridden { key: string_of(&id) });
                } else if same {
                    actions.push(KeyAction::InSync { key: string_of(&id) });
                } else {
                    let seg = Segment::Fence {
                        kind: FenceKind::Managed,
                        id: copy_chars(&id),
                        raw: render_block_exec(&id, &inner),
                        inner: copy_chars(&inner),
                    };
                    segs.set(k, seg);
                    assert(segs_view(segs@) =~= sv.update(k as int, managed_fence(id@, inner@)));
                    actions.push(
                        KeyAction::Updated {
                            key: string_of(&id),
                            from: string_of(&cur),
                            to: string_of(&inner),
                        },
                    );
                }
            },
            None => {
                if contains_chars(omits, &id) {
                    actions.push(KeyAction::Omitted { key: string_of(&id) });
                } else {
                    append_fence_exec(segs, &id, &inner);
                    actions.push(KeyAction::Reemitted { key: string_of(&id), to: string_of(&inner) });
                }
            },
        }
        assert(actions_view(actions@) =~= av.push(actions@.last()@));
        i += 1;
    }
    assert(dv.take(desired.fences.len() as int) =~= dv);
    actions
}

/// Removes the managed fences that are no longer desired.
fn remove_stale_exec(segs: Vec<Segment>, desired: &GitignoreDesired) -> (r: (
    Vec<Segment>,
    Vec<KeyAction>,
))
    ensures
        (segs_view(r.0@), actions_view(r.1@)) == remove_stale(segs_view(segs@), desired@),
{
    let ghost s1 = segs_view(segs@);
    let ghost dv = desired@;
    let mut segs = segs;
    let mut kept: Vec<Segment> = Vec::new();
    let mut dels: Vec<KeyAction> = Vec::new();
    let mut j: usize = 0;
    assert(s1.take(0) =~= Seq::<Seg>::empty());
    assert(segs_view(kept@) =~= Seq::<Seg>::empty());
    assert(actions_view(dels@) =~= Seq::<Action>::empty());
    while j < segs.len()
        invariant
            j <= segs.len(),
            segs@.len() == s1.len(),
            dv == desired@,
            forall|m: int| j <= m < s1.len() ==> #[trigger] segs@[m]@ == s1[m],
            (segs_view(kept@), actions_view(dels@)) == remove_stale(s1.take(j as int), dv),
        decreases segs.len() - j,
    {
        let mut seg = Segment::Text(Vec::new());
        segs.set_and_swap(j, &mut seg);
        assert(seg@ == s1[j as int]);
        let ghost kv = segs_view(kept@);
        let ghost dvw = actions_view(dels@);
        proof {
            assert(s1.take(j + 1).drop_last() =~= s1.take(j as int));
            assert(s1.take(j + 1).last() == s1[j as int]);
        }
        let (drop, report) = match &seg {
            Segment::Fence { kind, id, .. } => {
                let stale = !desired_has_id(&desired.fences, id);
                (*kind == FenceKind::Managed && stale, *kind == FenceKind::Overridden && stale)
            },
            Segment::Text(_) => (false, false),
        };
        if drop {
            match seg {
                Segment::Fence { id, inner, .. } => {
                    dels.push(KeyAction::Deleted { key: string_of(&id), was: string_of(&inner) });
                    assert(actions_view(dels@) =~= dvw.push(dels@.last()@));
                },
                Segment::Text(_) => {},
            }
        } else {
            if report {
                match &seg {
                    Segment::Fence { id, .. } => {
                        dels.push(KeyAction::Overridden { key: string_of(id) });
                        assert(actions_view(dels@) =~= dvw.push(dels@.last()@));
                    },
                    Segment::Text(_) => {},
                }
            }
            kept.push(seg);
            assert(segs_view(kept@) =~= kv.push(kept@.last()@));
        }
        j += 1;
    }
    assert(s1.take(segs.len() as int) =~= s1);
    (kept, dels)
}

pub struct GitignoreAdaptor;

impl GitignoreAdaptor {
    /// Stable identifier of this adaptor.
    pub fn id(&self) -> (r: &'static str)
        ensures
            r@ == "gitignore"@,
    {
        "gitignore"
    }

    /// Where the managed file lives, relative to the workspace.
    pub fn path(&self, _ctx: &RuntimeContext) -> (r: &'static str)
        ensures
            r@ == ".gitignore"@,
    {
        ".gitignore"
    }

    /// Reconciles `desired` against the existing `.gitignore` (`None` when
    /// there is no file): fences are rewritten, appended or removed as
    /// [`plan_gitignore`] states; everything outside yard's fences is kept.
    /// Fails when the file's markers do not form well-formed fences.
    pub fn apply(
        &self,
        desired: &GitignoreDesired,
        existing: Option<&str>,
        _ctx: &RuntimeContext,
    ) -> (r: Result<ApplyOutcome, GitignoreParseError>)
        ensures
            match r {
                Ok(o) => plan_gitignore(desired@, opt_view(existing)) == Ok::<Outcome, GitignoreParseError>(o@),
                Err(e) => plan_gitignore(desired@, opt_view(existing)) == Err::<Outcome, GitignoreParseError>(e),
            },
    {
        match desired_error_exec(desired) {
            Some(e) => {
                return Err(e);
            },
            None => {},
        }
        let content = match existing {
            Some(c) => chars_of(c),
            None => Vec::new(),
        };
        assert(content@ == match opt_view(existing) {
            Some(c) => c,
            None => Seq::<char>::empty(),
        });
        let mut segs = match parse_segments_exec(&content) {
            Ok(segs) => segs,
            Err(e) => {
                return Err(e);
            },
        };
        let ghost s0 = segs_view(segs@);
        let omits = collect_omits(&segs);
        let mut actions = apply_desired_exec(&mut segs, &omits, desired);
        let (kept, mut dels) = remove_stale_exec(segs, desired);
        let ghost a1 = actions_view(actions@);
        let ghost a2 = actions_view(dels@);
        actions.append(&mut dels);
        assert(actions_view(actions@) =~= a1 + a2);
        let ghost a12 = actions_view(actions@);
        let contents = if existing.is_none() && desired.fences.len() == 0 {
            None
        } else {
            Some(string_of(&render_exec(&kept)))
        };
        let ghost dv = desired@;
        let ghost ov = omits@.map_values(|a: Vec<char>| a@);
        let mut warnings: Vec<String> = Vec::new();
        let mut j: usize = 0;
        assert(ov.take(0) =~= Seq::<Seq<char>>::empty());
        assert(strings_view(warnings@) =~= Seq::<Seq<char>>::empty());
        assert(a12 + omit_actions(ov.take(0), dv) =~= a12);
        while j < omits.len()
            invariant
                j <= omits.len(),
                dv == desired@,
                ov == omits@.map_values(|a: Vec<char>| a@),
                strings_view(warnings@) == crate::adaptors::gitignore::omit_warnings(
                    ov.take(j as int),
                    dv,
                ),
                actions_view(actions@) == a12 + omit_actions(ov.take(j as int), dv),
            decreases omits.len() - j,
        {
            let ghost wv = strings_view(warnings@);
            let ghost av = actions_view(actions@);
            assert(ov.take(j + 1).drop_last() =~= ov.take(j as int));
            assert(ov.take(j + 1).last() == omits@[j as int]@);
            if !desired_has_id(&desired.fences, &omits[j]) {
                warnings.push(omit_warning_exec(&omits[j]));
                assert(strings_view(warnings@) =~= wv.push(warnings@.last()@));
                if is_valid_slug_from(&omits[j], 0) {
                    actions.push(KeyAction::Omitted { key: string_of(&omits[j]) });
                    assert(omits@[j as int]@.skip(0) =~= omits@[j as int]@);
                    assert(actions_view(actions@) =~= av.push(actions@.last()@));
                    assert(a12 + omit_actions(ov.take(j + 1), dv) =~= (a12 + omit_actions(ov.take(j as int), dv)).push(
                        actions@.last()@,
                    ));
                } else {
                    assert(omits@[j as int]@.skip(0) =~= omits@[j as int]@);
                }
            }
            j += 1;
        }
        assert(ov.take(omits.len() as int) =~= ov);
        Ok(ApplyOutcome { contents, actions, warnings })
    }
}

} // verus!
