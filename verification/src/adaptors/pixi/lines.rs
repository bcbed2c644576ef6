//! Reading the lines of a `pixi.toml`: table headers, `key = value` lines
//! with their yard marker comments, and `# yard:omit <path>` lines.
use vstd::prelude::*;

use super::value::{
    ExecValue, Value, is_ws, is_ws_exec, parse_value, parse_value_exec, skip_ws, skip_ws_exec,
};
use crate::text::{chars_of, has_at, slice_of, starts_with};

verus! {

/// The yard marker in a key line's trailing comment.
pub enum Marker {
    /// No yard marker.
    NoMarker,
    /// `# yard:managed default=<value>`.
    Managed(Value),
    /// `# yard:managed default=...` whose value cannot be read.
    ManagedBadDefault,
    /// `# yard:managed` without `default=`.
    ManagedNoDefault,
    /// `# yard:overridden`.
    Overridden,
}

/// What one line of a `pixi.toml` is, for yard.
pub enum PLine {
    /// `[name]`; a header yard cannot read keeps its raw text as name.
    Header(Seq<char>),
    /// `key = value  # comment`; `value_end` is where the value's text ends.
    Key { key: Seq<char>, value: Value, value_end: int, marker: Marker },
    /// `# yard:omit <arg>`.
    Omit(Seq<char>),
    /// Anything else.
    Other,
}

/// A character of a bare key: `[A-Za-z0-9_-]`.
pub open spec fn is_key_char(c: char) -> bool {
    ('a' <= c && c <= 'z') || ('A' <= c && c <= 'Z') || ('0' <= c && c <= '9') || c == '_'
        || c == '-'
}

/// A character of a table name or omit path: a key character or `.`.
pub open spec fn is_path_char(c: char) -> bool {
    is_key_char(c) || c == '.'
}

/// First index at or after `i` that is not a key character.
pub open spec fn key_end(t: Seq<char>, i: int) -> int
    decreases t.len() - i,
{
    if i < 0 || i >= t.len() || !is_key_char(t[i]) {
        i
    } else {
        key_end(t, i + 1)
    }
}

/// First index at or after `i` holding `c`, or -1.
pub open spec fn find_char(t: Seq<char>, c: char, i: int) -> int
    decreases t.len() - i,
{
    if i < 0 || i >= t.len() {
        -1
    } else if t[i] == c {
        i
    } else {
        find_char(t, c, i + 1)
    }
}

/// `p` is a non-empty run of path characters.
pub open spec fn is_valid_path(p: Seq<char>) -> bool {
    p.len() > 0 && forall|k: int| 0 <= k < p.len() ==> is_path_char(#[trigger] p[k])
}

/// `t[i..]` is blank or a comment.
pub open spec fn blank_or_comment(t: Seq<char>, i: int) -> bool {
    let k = skip_ws(t, i);
    k >= t.len() || t[k] == '#'
}

/// `t` without trailing spaces and tabs.
pub open spec fn trim_end(t: Seq<char>) -> Seq<char>
    decreases t.len(),
{
    if t.len() > 0 && is_ws(t.last()) {
        trim_end(t.drop_last())
    } else {
        t
    }
}

/// The marker carried by a comment's text (after the `#`).
pub open spec fn parse_comment(c: Seq<char>) -> Marker {
    let b = c.skip(skip_ws(c, 0));
    if trim_end(b) == "yard:overridden"@ {
        Marker::Overridden
    } else if starts_with(b, "yard:managed"@) {
        let rest = b.skip("yard:managed"@.len() as int);
        if rest.len() > 0 && !is_ws(rest[0]) {
            Marker::NoMarker
        } else {
            let r0 = skip_ws(rest, 0);
            if r0 >= rest.len() {
                Marker::ManagedNoDefault
            } else if starts_with(rest.skip(r0), "default="@) {
                let d = rest.skip(r0 + "default="@.len());
                match parse_value(d, 0) {
                    Some((v, e)) => if skip_ws(d, e) >= d.len() {
                        Marker::Managed(v)
                    } else {
                        Marker::ManagedBadDefault
                    },
                    None => Marker::ManagedBadDefault,
                }
            } else {
                Marker::ManagedNoDefault
            }
        }
    } else {
        Marker::NoMarker
    }
}

/// Classifies a line given without its terminator.
pub open spec fn classify_pline(t: Seq<char>) -> PLine {
    let i0 = skip_ws(t, 0);
    if i0 < t.len() && t[i0] == '[' {
        let j = find_char(t, ']', i0 + 1);
        if j > i0 && is_valid_path(t.subrange(i0 + 1, j)) && blank_or_comment(t, j + 1) {
            PLine::Header(t.subrange(i0 + 1, j))
        } else {
            PLine::Header(t)
        }
    } else if starts_with(t.skip(i0), "# yard:omit "@) {
        PLine::Omit(trim_end(t.skip(i0 + "# yard:omit "@.len())))
    } else {
        let ke = key_end(t, i0);
        let eq = skip_ws(t, ke);
        if ke > i0 && eq < t.len() && t[eq] == '=' {
            let v0 = skip_ws(t, eq + 1);
            match parse_value(t, v0) {
                Some((v, ve)) => {
                    let c = skip_ws(t, ve);
                    if c >= t.len() {
                        PLine::Key { key: t.subrange(i0, ke), value: v, value_end: ve, marker: Marker::NoMarker }
                    } else if t[c] == '#' {
                        PLine::Key {
                            key: t.subrange(i0, ke),
                            value: v,
                            value_end: ve,
                            marker: parse_comment(t.skip(c + 1)),
                        }
                    } else {
                        PLine::Other
                    }
                },
                None => PLine::Other,
            }
        } else {
            PLine::Other
        }
    }
}

/// Executable counterpart of [`Marker`].
pub enum ExecMarker {
    NoMarker,
    Managed(ExecValue),
    ManagedBadDefault,
    ManagedNoDefault,
    Overridden,
}

impl ExecMarker {
    pub open spec fn view(&self) -> Marker {
        match self {
            ExecMarker::NoMarker => Marker::NoMarker,
            ExecMarker::Managed(v) => Marker::Managed(v@),
            ExecMarker::ManagedBadDefault => Marker::ManagedBadDefault,
            ExecMarker::ManagedNoDefault => Marker::ManagedNoDefault,
            ExecMarker::Overridden => Marker::Overridden,
        }
    }
}

/// Executable counterpart of [`PLine`].
pub enum ExecPLine {
    Header(Vec<char>),
    Key { key: Vec<char>, value: ExecValue, value_end: usize, marker: ExecMarker },
    Omit(Vec<char>),
    Other,
}

impl ExecPLine {
    pub open spec fn view(&self) -> PLine {
        match self {
            ExecPLine::Header(n) => PLine::Header(n@),
            ExecPLine::Key { key, value, value_end, marker } => PLine::Key {
                key: key@,
                value: value@,
                value_end: *value_end as int,
                marker: marker@,
            },
            ExecPLine::Omit(a) => PLine::Omit(a@),
            ExecPLine::Other => PLine::Other,
        }
    }
}

fn is_key_char_exec(c: char) -> (r: bool)
    ensures
        r == is_key_char(c),
{
    ('a' <= c && c <= 'z') || ('A' <= c && c <= 'Z') || ('0' <= c && c <= '9') || c == '_'
        || c == '-'
}

/// First index at or after `i` that is not a key character.
pub(crate) fn key_end_exec(t: &Vec<char>, i: usize) -> (r: usize)
    requires
        i <= t.len(),
    ensures
        r == key_end(t@, i as int),
        i <= r <= t.len(),
{
    let mut j = i;
    while j < t.len() && is_key_char_exec(t[j])
        invariant
            i <= j <= t.len(),
            key_end(t@, i as int) == key_end(t@, j as int),
        decreases t.len() - j,
    {
        j += 1;
    }
    j
}

/// First index at or after `i` holding `c`.
fn find_char_exec(t: &Vec<char>, c: char, i: usize) -> (r: Option<usize>)
    requires
        i <= t.len(),
    ensures
        match r {
            Some(j) => find_char(t@, c, i as int) == j && i <= j < t.len(),
            None => find_char(t@, c, i as int) == -1,
        },
{
    let mut j = i;
    while j < t.len()
        invariant
            i <= j <= t.len(),
            find_char(t@, c, i as int) == find_char(t@, c, j as int),
        decreases t.len() - j,
    {
        if t[j] == c {
            return Some(j);
        }
        j += 1;
    }
    None
}

/// Whether `t[from..to]` is a valid path.
pub fn is_valid_path_exec(t: &Vec<char>, from: usize, to: usize) -> (r: bool)
    requires
        from <= to <= t.len(),
    ensures
        r == is_valid_path(t@.subrange(from as int, to as int)),
{
    if from == to {
        return false;
    }
    let mut j = from;
    while j < to
        invariant
            from <= j <= to <= t.len(),
            forall|k: int| from <= k < j ==> is_path_char(#[trigger] t@[k]),
        decreases to - j,
    {
        let c = t[j];
        if !(is_key_char_exec(c) || c == '.') {
            assert(t@.subrange(from as int, to as int)[j - from] == c);
            return false;
        }
        j += 1;
    }
    assert forall|k: int| 0 <= k < t@.subrange(from as int, to as int).len() implies is_path_char(
        #[trigger] t@.subrange(from as int, to as int)[k],
    ) by {
        assert(t@.subrange(from as int, to as int)[k] == t@[from + k]);
    }
    true
}

/// `t` without trailing spaces and tabs.
fn trim_end_exec(t: &Vec<char>) -> (r: Vec<char>)
    ensures
        r@ == trim_end(t@),
{
    let mut n = t.len();
    assert(t@.subrange(0, t@.len() as int) =~= t@);
    while n > 0 && is_ws_exec(t[n - 1])
        invariant
            n <= t.len(),
            trim_end(t@) == trim_end(t@.subrange(0, n as int)),
        decreases n,
    {
        assert(t@.subrange(0, n as int).drop_last() =~= t@.subrange(0, n - 1));
        n -= 1;
    }
    proof {
        if n > 0 {
            assert(t@.subrange(0, n as int).last() == t@[n - 1]);
        }
    }
    assert(t@.subrange(0, t@.len() as int) =~= t@);
    slice_of(t, 0, n)
}

/// The marker carried by a comment's text.
fn parse_comment_exec(c: &Vec<char>) -> (r: ExecMarker)
    ensures
        r@ == parse_comment(c@),
{
    let s0 = skip_ws_exec(c, 0);
    let b = slice_of(c, s0, c.len());
    assert(b@ =~= c@.skip(s0 as int));
    let tb = trim_end_exec(&b);
    let over = chars_of("yard:overridden");
    if crate::text::same_chars(&tb, &over) {
        return ExecMarker::Overridden;
    }
    let managed = chars_of("yard:managed");
    if !has_at(&b, 0, &managed) {
        return ExecMarker::NoMarker;
    }
    assert(b@.subrange(0, managed@.len() as int) == managed@);
    let rest = slice_of(&b, managed.len(), b.len());
    assert(rest@ =~= b@.skip(managed@.len() as int));
    if rest.len() > 0 && !is_ws_exec(rest[0]) {
        return ExecMarker::NoMarker;
    }
    let r0 = skip_ws_exec(&rest, 0);
    if r0 >= rest.len() {
        return ExecMarker::ManagedNoDefault;
    }
    let def = chars_of("default=");
    if !has_at(&rest, r0, &def) {
        proof {
            if starts_with(rest@.skip(r0 as int), "default="@) {
                assert(rest@.subrange(r0 as int, r0 + def@.len()) =~= rest@.skip(r0 as int).subrange(0, def@.len() as int));
            }
        }
        return ExecMarker::ManagedNoDefault;
    }
    assert(rest@.skip(r0 as int).subrange(0, def@.len() as int) =~= rest@.subrange(r0 as int, r0 + def@.len()));
    let d = slice_of(&rest, r0 + def.len(), rest.len());
    assert(d@ =~= rest@.skip(r0 + def@.len()));
    match parse_value_exec(&d, 0) {
        Some((v, e)) => {
            if skip_ws_exec(&d, e) >= d.len() {
                ExecMarker::Managed(v)
            } else {
                ExecMarker::ManagedBadDefault
            }
        },
        None => ExecMarker::ManagedBadDefault,
    }
}

/// Classifies a line given without its terminator.
pub fn classify_pline_exec(t: &Vec<char>) -> (r: ExecPLine)
    ensures
        r@ == classify_pline(t@),
        r matches ExecPLine::Key { value_end, .. } ==> value_end <= t@.len(),
{
    let i0 = skip_ws_exec(t, 0);
    if i0 < t.len() && t[i0] == '[' {
        match find_char_exec(t, ']', i0 + 1) {
            Some(j) => {
                let k = skip_ws_exec(t, j + 1);
                if is_valid_path_exec(t, i0 + 1, j) && (k >= t.len() || t[k] == '#') {
                    return ExecPLine::Header(slice_of(t, i0 + 1, j));
                }
                assert(t@.subrange(0, t@.len() as int) =~= t@);
                return ExecPLine::Header(slice_of(t, 0, t.len()));
            },
            None => {
                assert(t@.subrange(0, t@.len() as int) =~= t@);
                return ExecPLine::Header(slice_of(t, 0, t.len()));
            },
        }
    }
    let omit = chars_of("# yard:omit ");
    if has_at(t, i0, &omit) {
        assert(t@.skip(i0 as int).subrange(0, omit@.len() as int) =~= t@.subrange(i0 as int, i0 + omit@.len()));
        let a = slice_of(t, i0 + omit.len(), t.len());
        assert(a@ =~= t@.skip(i0 + omit@.len()));
        return ExecPLine::Omit(trim_end_exec(&a));
    }
    proof {
        if starts_with(t@.skip(i0 as int), "# yard:omit "@) {
            assert(t@.skip(i0 as int).subrange(0, omit@.len() as int) =~= t@.subrange(i0 as int, i0 + omit@.len()));
        }
    }
    let ke = key_end_exec(t, i0);
    let eq = skip_ws_exec(t, ke);
    if !(ke > i0 && eq < t.len() && t[eq] == '=') {
        return ExecPLine::Other;
    }
    let v0 = skip_ws_exec(t, eq + 1);
    match parse_value_exec(t, v0) {
        Some((v, ve)) => {
            let c = skip_ws_exec(t, ve);
            let key = slice_of(t, i0, ke);
            if c >= t.len() {
                ExecPLine::Key { key, value: v, value_end: ve, marker: ExecMarker::NoMarker }
            } else if t[c] == '#' {
                let com = slice_of(t, c + 1, t.len());
                assert(com@ =~= t@.skip(c + 1));
                let marker = parse_comment_exec(&com);
                ExecPLine::Key { key, value: v, value_end: ve, marker }
            } else {
                ExecPLine::Other
            }
        },
        None => ExecPLine::Other,
    }
}

} // verus!
