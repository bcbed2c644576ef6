//! Fence markers in a `.gitignore`: recognising marker lines and splitting a
//! file into user lines and yard fences.
//!
//! A file is read line by line. A line is an open marker
//! (`# >>> yard:<kind> id=<slug> >>>`), a close marker
//! (`# <<< yard:<kind> id=<slug> <<<`), an omit line (`# yard:omit <arg>`),
//! a malformed marker (starts like a marker but does not parse), or a plain
//! line. Outside a fence, plain and omit lines are user lines; an open marker
//! starts a fence, which runs up to the close marker of the same kind and id.
use vstd::prelude::*;

use crate::text::{
    decimal, decimal_exec, push_str, string_of,
    chars_of, ends_with, has_at, lines_of, push_all, same_chars, slice_of, split_lines, starts_with,
    strip_eol, strip_newline,
};

verus! {

/// Who owns a fence: yard (`managed`) or the user (`overridden`).
#[derive(Clone, Copy, Debug, PartialEq, Eq, Structural)]
pub enum FenceKind {
    Managed,
    Overridden,
}

/// What one line of a `.gitignore` is, as far as fences are concerned.
pub enum LineClass {
    Open(FenceKind, Seq<char>),
    Close(FenceKind, Seq<char>),
    Malformed,
    Omit(Seq<char>),
    Plain,
}

pub open spec fn open_prefix() -> Seq<char> {
    "# >>> yard:"@
}

pub open spec fn open_suffix() -> Seq<char> {
    " >>>"@
}

pub open spec fn close_prefix() -> Seq<char> {
    "# <<< yard:"@
}

pub open spec fn close_suffix() -> Seq<char> {
    " <<<"@
}

pub open spec fn omit_prefix() -> Seq<char> {
    "# yard:omit "@
}

pub open spec fn managed_tag() -> Seq<char> {
    "managed id="@
}

pub open spec fn overridden_tag() -> Seq<char> {
    "overridden id="@
}

/// A character allowed in a fence id: `[A-Za-z0-9_-]`.
pub open spec fn is_slug_char(c: char) -> bool {
    ('a' <= c && c <= 'z') || ('A' <= c && c <= 'Z') || ('0' <= c && c <= '9') || c == '_'
        || c == '-'
}

/// A fence id: one or more of `[A-Za-z0-9_-]`.
pub open spec fn is_valid_slug(id: Seq<char>) -> bool {
    id.len() > 0 && forall|k: int| 0 <= k < id.len() ==> is_slug_char(#[trigger] id[k])
}

/// The kind and id carried by a marker body (`managed id=<slug>` or
/// `overridden id=<slug>`).
pub open spec fn parse_body(body: Seq<char>) -> Option<(FenceKind, Seq<char>)> {
    if starts_with(body, managed_tag()) {
        let id = body.skip(managed_tag().len() as int);
        if is_valid_slug(id) {
            Some((FenceKind::Managed, id))
        } else {
            None
        }
    } else if starts_with(body, overridden_tag()) {
        let id = body.skip(overridden_tag().len() as int);
        if is_valid_slug(id) {
            Some((FenceKind::Overridden, id))
        } else {
            None
        }
    } else {
        None
    }
}

/// The kind and id of the marker `t`, framed by `pre` and `suf`.
pub open spec fn parse_marker(t: Seq<char>, pre: Seq<char>, suf: Seq<char>) -> Option<
    (FenceKind, Seq<char>),
> {
    if pre.len() + suf.len() <= t.len() && starts_with(t, pre) && ends_with(t, suf) {
        parse_body(t.subrange(pre.len() as int, t.len() - suf.len()))
    } else {
        None
    }
}

/// Classifies a line given without its terminator.
pub open spec fn classify(t: Seq<char>) -> LineClass {
    if starts_with(t, open_prefix()) {
        match parse_marker(t, open_prefix(), open_suffix()) {
            Some((k, id)) => LineClass::Open(k, id),
            None => LineClass::Malformed,
        }
    } else if starts_with(t, close_prefix()) {
        match parse_marker(t, close_prefix(), close_suffix()) {
            Some((k, id)) => LineClass::Close(k, id),
            None => LineClass::Malformed,
        }
    } else if starts_with(t, omit_prefix()) {
        LineClass::Omit(t.skip(omit_prefix().len() as int))
    } else {
        LineClass::Plain
    }
}

/// Executable counterpart of [`LineClass`].
pub enum Line {
    Open(FenceKind, Vec<char>),
    Close(FenceKind, Vec<char>),
    Malformed,
    Omit(Vec<char>),
    Plain,
}

impl Line {
    pub open spec fn view(&self) -> LineClass {
        match self {
            Line::Open(k, id) => LineClass::Open(*k, id@),
            Line::Close(k, id) => LineClass::Close(*k, id@),
            Line::Malformed => LineClass::Malformed,
            Line::Omit(arg) => LineClass::Omit(arg@),
            Line::Plain => LineClass::Plain,
        }
    }
}

fn is_slug_char_exec(c: char) -> (r: bool)
    ensures
        r == is_slug_char(c),
{
    ('a' <= c && c <= 'z') || ('A' <= c && c <= 'Z') || ('0' <= c && c <= '9') || c == '_'
        || c == '-'
}

/// Whether `t[from..]` is a valid fence id.
pub(crate) fn is_valid_slug_from(t: &Vec<char>, from: usize) -> (r: bool)
    requires
        from <= t.len(),
    ensures
        r == is_valid_slug(t@.skip(from as int)),
{
    if from == t.len() {
        return false;
    }
    let mut i = from;
    while i < t.len()
        invariant
            from <= i <= t.len(),
            forall|k: int| from <= k < i ==> is_slug_char(#[trigger] t@[k]),
        decreases t.len() - i,
    {
        if !is_slug_char_exec(t[i]) {
            assert(t@.skip(from as int)[i - from] == t@[i as int]);
            return false;
        }
        i += 1;
    }
    assert forall|k: int| 0 <= k < t@.skip(from as int).len() implies is_slug_char(
        #[trigger] t@.skip(from as int)[k],
    ) by {
        assert(t@.skip(from as int)[k] == t@[from + k]);
    }
    true
}

fn parse_body_exec(body: &Vec<char>) -> (r: Option<(FenceKind, Vec<char>)>)
    ensures
        match r {
            Some((k, id)) => parse_body(body@) == Some((k, id@)),
            None => parse_body(body@) is None,
        },
{
    let managed = chars_of("managed id=");
    let overridden = chars_of("overridden id=");
    if has_at(body, 0, &managed) {
        assert(body@.subrange(0, managed@.len() as int) == managed@);
        if is_valid_slug_from(body, managed.len()) {
            let id = slice_of(body, managed.len(), body.len());
            assert(id@ == body@.skip(managed@.len() as int));
            Some((FenceKind::Managed, id))
        } else {
            None
        }
    } else if has_at(body, 0, &overridden) {
        assert(body@.subrange(0, overridden@.len() as int) == overridden@);
        if is_valid_slug_from(body, overridden.len()) {
            let id = slice_of(body, overridden.len(), body.len());
            assert(id@ == body@.skip(overridden@.len() as int));
            Some((FenceKind::Overridden, id))
        } else {
            None
        }
    } else {
        None
    }
}

fn parse_marker_exec(t: &Vec<char>, pre: &Vec<char>, suf: &Vec<char>) -> (r: Option<
    (FenceKind, Vec<char>),
>)
    ensures
        match r {
            Some((k, id)) => parse_marker(t@, pre@, suf@) == Some((k, id@)),
            None => parse_marker(t@, pre@, suf@) is None,
        },
{
    if pre.len() <= t.len() && suf.len() <= t.len() - pre.len() && has_at(t, 0, pre) && has_at(
        t,
        t.len() - suf.len(),
        suf,
    ) {
        let body = slice_of(t, pre.len(), t.len() - suf.len());
        parse_body_exec(&body)
    } else {
        None
    }
}

/// Classifies a line given without its terminator.
pub fn classify_line(t: &Vec<char>) -> (r: Line)
    ensures
        r@ == classify(t@),
{
    let open_pre = chars_of("# >>> yard:");
    let close_pre = chars_of("# <<< yard:");
    let omit_pre = chars_of("# yard:omit ");
    if has_at(t, 0, &open_pre) {
        let suf = chars_of(" >>>");
        match parse_marker_exec(t, &open_pre, &suf) {
            Some((k, id)) => Line::Open(k, id),
            None => Line::Malformed,
        }
    } else if has_at(t, 0, &close_pre) {
        let suf = chars_of(" <<<");
        match parse_marker_exec(t, &close_pre, &suf) {
            Some((k, id)) => Line::Close(k, id),
            None => Line::Malformed,
        }
    } else if has_at(t, 0, &omit_pre) {
        let arg = slice_of(t, omit_pre.len(), t.len());
        Line::Omit(arg)
    } else {
        Line::Plain
    }
}

/// A line without its terminator.
pub fn strip_eol_exec(line: &Vec<char>) -> (r: Vec<char>)
    ensures
        r@ == strip_eol(line@),
{
    let mut end = line.len();
    if end > 0 && line[end - 1] == '\n' {
        end -= 1;
    }
    if end > 0 && line[end - 1] == '\r' {
        end -= 1;
    }
    let r = slice_of(line, 0, end);
    assert(line@.subrange(0, line@.len() as int) =~= line@);
    assert(line@.drop_last() =~= line@.subrange(0, line@.len() - 1));
    assert(line@.len() >= 2 ==> line@.drop_last().drop_last() =~= line@.subrange(
        0,
        line@.len() - 2,
    ));
    r
}

/// Why a `.gitignore` could not be read as user lines and fences. Each
/// variant carries the 1-based number of the offending line.
#[derive(Clone, Copy, Debug, PartialEq, Eq, Structural)]
pub enum GitignoreParseError {
    /// A line starts like a yard marker but is not one (e.g. no `id=`).
    MalformedMarker { line: usize },
    /// A close marker with no fence open.
    UnexpectedClose { line: usize },
    /// A close marker whose kind or id differs from the open marker's.
    MismatchedClose { line: usize },
    /// An open marker inside a fence that is still open.
    NestedOpen { line: usize },
    /// An open marker (on this line) whose fence is never closed.
    Unclosed { line: usize },
    /// A fence (closed on this line) reuses the id of an earlier fence.
    DuplicateId { line: usize },
    /// Line `line` of the `fence`-th desired fence (both 1-based) holds a
    /// line break or reads as a yard marker, so yard cannot write it inside
    /// a fence and read the file back.
    UnwritableLine { fence: usize, line: usize },
    /// The id of the `fence`-th desired fence (1-based) is no slug.
    InvalidFenceId { fence: usize },
    /// The `fence`-th desired fence (1-based) has the id of an earlier one.
    RepeatedFenceId { fence: usize },
}

/// A piece of a `.gitignore`: one user line, or one whole fence.
pub enum Seg {
    /// A line outside any fence, with its terminator.
    Text(Seq<char>),
    /// A fence: `raw` is its text from the open marker through the close
    /// marker's line; `inner` is the text between the markers without its
    /// final `'\n'`.
    Fence { kind: FenceKind, id: Seq<char>, raw: Seq<char>, inner: Seq<char> },
}

/// A fence whose close marker has not been reached yet.
pub struct OpenFence {
    pub kind: FenceKind,
    pub id: Seq<char>,
    /// The open marker's line.
    pub head: Seq<char>,
    /// The lines read since the open marker.
    pub body: Seq<char>,
    /// Index of the open marker's line.
    pub line: int,
}

/// `s` is a fence with id `id`.
pub open spec fn is_fence_with_id(s: Seg, id: Seq<char>) -> bool {
    s matches Seg::Fence { id: fid, .. } && fid == id
}

/// Some fence in `acc` has id `id`.
pub open spec fn has_fence_id(acc: Seq<Seg>, id: Seq<char>) -> bool {
    exists|k: int| 0 <= k < acc.len() && is_fence_with_id(#[trigger] acc[k], id)
}

/// Reads `lines[i..]` given what has been read before: `open` is the fence
/// still open, `acc` the pieces already complete.
pub open spec fn scan(
    lines: Seq<Seq<char>>,
    i: int,
    open: Option<OpenFence>,
    acc: Seq<Seg>,
) -> Result<Seq<Seg>, GitignoreParseError>
    decreases lines.len() - i,
{
    if i < 0 || i >= lines.len() {
        match open {
            None => Ok(acc),
            Some(o) => Err(GitignoreParseError::Unclosed { line: (o.line + 1) as usize }),
        }
    } else {
        let l = lines[i];
        let ln = (i + 1) as usize;
        match open {
            None => match classify(strip_eol(l)) {
                LineClass::Open(k, id) => scan(
                    lines,
                    i + 1,
                    Some(OpenFence { kind: k, id: id, head: l, body: seq![], line: i }),
                    acc,
                ),
                LineClass::Close(_, _) => Err(GitignoreParseError::UnexpectedClose { line: ln }),
                LineClass::Malformed => Err(GitignoreParseError::MalformedMarker { line: ln }),
                _ => scan(lines, i + 1, None, acc.push(Seg::Text(l))),
            },
            Some(o) => match classify(strip_eol(l)) {
                LineClass::Close(k, id) => if k == o.kind && id == o.id {
                    if has_fence_id(acc, id) {
                        Err(GitignoreParseError::DuplicateId { line: ln })
                    } else {
                        scan(
                            lines,
                            i + 1,
                            None,
                            acc.push(
                                Seg::Fence {
                                    kind: k,
                                    id: id,
                                    raw: o.head + o.body + l,
                                    inner: strip_newline(o.body),
                                },
                            ),
                        )
                    }
                } else {
                    Err(GitignoreParseError::MismatchedClose { line: ln })
                },
                LineClass::Open(_, _) => Err(GitignoreParseError::NestedOpen { line: ln }),
                LineClass::Malformed => Err(GitignoreParseError::MalformedMarker { line: ln }),
                _ => scan(
                    lines,
                    i + 1,
                    Some(OpenFence { body: o.body + l, ..o }),
                    acc,
                ),
            },
        }
    }
}

/// A `.gitignore` as user lines and fences, in file order.
pub open spec fn parse_segments(content: Seq<char>) -> Result<Seq<Seg>, GitignoreParseError> {
    scan(lines_of(content), 0, None, seq![])
}

/// Executable counterpart of [`Seg`].
pub enum Segment {
    Text(Vec<char>),
    Fence { kind: FenceKind, id: Vec<char>, raw: Vec<char>, inner: Vec<char> },
}

impl Segment {
    pub open spec fn view(&self) -> Seg {
        match self {
            Segment::Text(l) => Seg::Text(l@),
            Segment::Fence { kind, id, raw, inner } => Seg::Fence {
                kind: *kind,
                id: id@,
                raw: raw@,
                inner: inner@,
            },
        }
    }
}

/// The spec pieces behind executable pieces.
pub open spec fn segs_view(v: Seq<Segment>) -> Seq<Seg> {
    v.map_values(|s: Segment| s@)
}

/// Whether some fence in `segs` has id `id`.
pub fn find_fence(segs: &Vec<Segment>, id: &Vec<char>) -> (r: Option<usize>)
    ensures
        match r {
            Some(k) => k < segs@.len() && is_fence_with_id(segs@[k as int]@, id@) && forall|j: int|
                0 <= j < k ==> !is_fence_with_id(#[trigger] segs@[j]@, id@),
            None => !has_fence_id(segs_view(segs@), id@),
        },
{
    let mut i: usize = 0;
    while i < segs.len()
        invariant
            i <= segs.len(),
            forall|j: int| 0 <= j < i ==> !is_fence_with_id(#[trigger] segs@[j]@, id@),
        decreases segs.len() - i,
    {
        match &segs[i] {
            Segment::Fence { id: fid, .. } => {
                if same_chars(fid, id) {
                    return Some(i);
                }
            },
            Segment::Text(_) => {},
        }
        i += 1;
    }
    proof {
        let sv = segs_view(segs@);
        if has_fence_id(sv, id@) {
            let k = choose|k: int| 0 <= k < sv.len() && is_fence_with_id(#[trigger] sv[k], id@);
            assert(sv[k] == segs@[k]@);
        }
    }
    None
}

/// The spec view of the scanner's open-fence state.
pub open spec fn open_view(o: Option<(FenceKind, Vec<char>, Vec<char>, Vec<char>, usize)>) -> Option<
    OpenFence,
> {
    match o {
        None => None,
        Some((k, id, head, body, line)) => Some(
            OpenFence { kind: k, id: id@, head: head@, body: body@, line: line as int },
        ),
    }
}

/// Splits `content` into user lines and fences.
pub fn parse_segments_exec(content: &Vec<char>) -> (r: Result<Vec<Segment>, GitignoreParseError>)
    ensures
        match r {
            Ok(v) => parse_segments(content@) == Ok::<Seq<Seg>, GitignoreParseError>(segs_view(v@)),
            Err(e) => parse_segments(content@) == Err::<Seq<Seg>, GitignoreParseError>(e),
        },
{
    let lines = split_lines(content);
    let ghost ls = lines_of(content@);
    assert(lines@.map_values(|l: Vec<char>| l@) =~= ls);
    let mut acc: Vec<Segment> = Vec::new();
    // The fence still open: kind, id, open line, body so far, open line index.
    let mut open: Option<(FenceKind, Vec<char>, Vec<char>, Vec<char>, usize)> = None;
    let mut i: usize = 0;
    assert(segs_view(acc@) =~= Seq::<Seg>::empty());
    while i < lines.len()
        invariant
            i <= lines.len(),
            ls == lines_of(content@),
            lines@.len() == ls.len(),
            forall|k: int| 0 <= k < lines@.len() ==> #[trigger] lines@[k]@ == ls[k],
            scan(ls, 0, None, seq![]) == scan(
                ls,
                i as int,
                open_view(open),
                segs_view(acc@),
            ),
            match open {
                None => true,
                Some((_, _, _, _, line)) => line < i,
            },
        decreases lines.len() - i,
    {
        let l = &lines[i];
        let t = strip_eol_exec(l);
        let class = classify_line(&t);
        let ln = i + 1;
        let ghost old_acc = segs_view(acc@);
        let ghost ost = open_view(open);
        assert(parse_segments(content@) == scan(ls, i as int, ost, old_acc));
        assert(lines@[i as int]@ == ls[i as int]);
        assert(class@ == classify(strip_eol(ls[i as int])));
        match open {
            None => {
                match class {
                    Line::Open(k, id) => {
                        open = Some((k, id, l.clone(), Vec::new(), i));
                    },
                    Line::Close(_, _) => {
                        assert(classify(strip_eol(ls[i as int])) is Close);

                        return Err(GitignoreParseError::UnexpectedClose { line: ln });
                    },
                    Line::Malformed => {
                        return Err(GitignoreParseError::MalformedMarker { line: ln });
                    },
                    _ => {
                        acc.push(Segment::Text(l.clone()));
                        assert(segs_view(acc@) =~= old_acc.push(Seg::Text(lines@[i as int]@)));
                    },
                }
            },
            Some((ok, oid, head, body, oline)) => {
                match class {
                    Line::Close(k, id) => {
                        if k == ok && same_chars(&id, &oid) {
                            if let Some(dup) = find_fence(&acc, &id) {
                                assert(segs_view(acc@)[dup as int] == acc@[dup as int]@);
                                assert(has_fence_id(old_acc, id@));
                                return Err(GitignoreParseError::DuplicateId { line: ln });
                            }
                            let mut raw = head.clone();
                            push_all(&mut raw, &body);
                            push_all(&mut raw, l);
                            let mut inner = body;
                            if inner.len() > 0 && inner[inner.len() - 1] == '\n' {
                                inner.pop();
                            }
                            acc.push(Segment::Fence { kind: k, id: id, raw: raw, inner: inner });
                            open = None;
                            proof {
                                assert(segs_view(acc@) =~= old_acc.push(acc@.last()@));
                            }
                        } else {
                            return Err(GitignoreParseError::MismatchedClose { line: ln });
                        }
                    },
                    Line::Open(_, _) => {
                        return Err(GitignoreParseError::NestedOpen { line: ln });
                    },
                    Line::Malformed => {
                        return Err(GitignoreParseError::MalformedMarker { line: ln });
                    },
                    _ => {
                        let mut body2 = body;
                        push_all(&mut body2, l);
                        open = Some((ok, oid, head, body2, oline));
                    },
                }
            },
        }
        i += 1;
    }
    match open {
        None => Ok(acc),
        Some((_, _, _, _, line)) => Err(GitignoreParseError::Unclosed { line: line + 1 }),
    }
}

/// What a [`GitignoreParseError`] says is wrong.
pub open spec fn gitignore_error_detail(e: GitignoreParseError) -> Seq<char> {
    match e {
        GitignoreParseError::MalformedMarker { .. } => "malformed yard marker (expected `# >>> yard:<managed|overridden> id=<slug> >>>` or the matching `# <<< ... <<<`)"@,
        GitignoreParseError::UnexpectedClose { .. } => "close marker without an open fence"@,
        GitignoreParseError::MismatchedClose { .. } => "close marker does not match the open marker's kind and id"@,
        GitignoreParseError::NestedOpen { .. } => "open marker inside a fence that is still open"@,
        GitignoreParseError::Unclosed { .. } => "fence opened here is never closed"@,
        GitignoreParseError::DuplicateId { .. } => "fence reuses the id of an earlier fence"@,
        GitignoreParseError::UnwritableLine { .. } => "holds a line break or reads as a yard marker; yard will not write it inside a fence"@,
        GitignoreParseError::InvalidFenceId { .. } => "its id is not a slug ([A-Za-z0-9_-]+)"@,
        GitignoreParseError::RepeatedFenceId { .. } => "its id is that of an earlier fence"@,
    }
}

/// The line a [`GitignoreParseError`] points at.
pub open spec fn gitignore_error_line(e: GitignoreParseError) -> usize {
    match e {
        GitignoreParseError::MalformedMarker { line } => line,
        GitignoreParseError::UnexpectedClose { line } => line,
        GitignoreParseError::MismatchedClose { line } => line,
        GitignoreParseError::NestedOpen { line } => line,
        GitignoreParseError::Unclosed { line } => line,
        GitignoreParseError::DuplicateId { line } => line,
        GitignoreParseError::UnwritableLine { line, .. } => line,
        GitignoreParseError::InvalidFenceId { fence } => fence,
        GitignoreParseError::RepeatedFenceId { fence } => fence,
    }
}

/// The message for a [`GitignoreParseError`]:
/// `.gitignore line <n>: <what is wrong>` for the existing file, or
/// `.gitignore: fence <f> [line <n>] yard wants: <what is wrong>` for the
/// desired fences.
pub open spec fn gitignore_error_message(e: GitignoreParseError) -> Seq<char> {
    match e {
        GitignoreParseError::UnwritableLine { fence, line } => ".gitignore: fence "@ + decimal(fence as nat)
            + " line "@ + decimal(line as nat) + " yard wants: "@ + gitignore_error_detail(e),
        GitignoreParseError::InvalidFenceId { fence } => ".gitignore: fence "@ + decimal(fence as nat)
            + " yard wants: "@ + gitignore_error_detail(e),
        GitignoreParseError::RepeatedFenceId { fence } => ".gitignore: fence "@ + decimal(fence as nat)
            + " yard wants: "@ + gitignore_error_detail(e),
        _ => ".gitignore line "@ + decimal(gitignore_error_line(e) as nat) + ": "@ + gitignore_error_detail(e),
    }
}

impl GitignoreParseError {
    /// A human-readable description naming the file and the line.
    pub fn message(&self) -> (r: String)
        ensures
            r@ == gitignore_error_message(*self),
    {
        let (line, detail) = match self {
            GitignoreParseError::MalformedMarker { line } => (
                *line,
                "malformed yard marker (expected `# >>> yard:<managed|overridden> id=<slug> >>>` or the matching `# <<< ... <<<`)",
            ),
            GitignoreParseError::UnexpectedClose { line } => (*line, "close marker without an open fence"),
            GitignoreParseError::MismatchedClose { line } => (
                *line,
                "close marker does not match the open marker's kind and id",
            ),
            GitignoreParseError::NestedOpen { line } => (*line, "open marker inside a fence that is still open"),
            GitignoreParseError::Unclosed { line } => (*line, "fence opened here is never closed"),
            GitignoreParseError::DuplicateId { line } => (*line, "fence reuses the id of an earlier fence"),
            GitignoreParseError::UnwritableLine { line, .. } => (
                *line,
                "holds a line break or reads as a yard marker; yard will not write it inside a fence",
            ),
            GitignoreParseError::InvalidFenceId { fence } => (*fence, "its id is not a slug ([A-Za-z0-9_-]+)"),
            GitignoreParseError::RepeatedFenceId { fence } => (*fence, "its id is that of an earlier fence"),
        };
        let mut out: Vec<char> = Vec::new();
        match self {
            GitignoreParseError::UnwritableLine { fence, .. } => {
                push_str(&mut out, ".gitignore: fence ");
                let fd = decimal_exec(*fence);
                push_all(&mut out, &fd);
                push_str(&mut out, " line ");
                let digits = decimal_exec(line);
                push_all(&mut out, &digits);
                push_str(&mut out, " yard wants: ");
            },
            GitignoreParseError::InvalidFenceId { .. } | GitignoreParseError::RepeatedFenceId { .. } => {
                push_str(&mut out, ".gitignore: fence ");
                let fd = decimal_exec(line);
                push_all(&mut out, &fd);
                push_str(&mut out, " yard wants: ");
            },
            _ => {
                push_str(&mut out, ".gitignore line ");
                let digits = decimal_exec(line);
                push_all(&mut out, &digits);
                push_str(&mut out, ": ");
            },
        }
        push_str(&mut out, detail);
        string_of(&out)
    }
}

} // verus!
