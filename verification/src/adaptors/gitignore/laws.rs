//! What holds of the `.gitignore` adaptor across calls: reading a file into
//! user lines and fences loses nothing, and applying the same desired fences
//! to the file that an apply wrote changes nothing.
use vstd::prelude::*;

use crate::text::{
    concat, ends_in_newline, free_of, strip_cr, is_line, lemma_concat_last, lemma_concat_prepend,
    lemma_lines_concat, lemma_lines_from_run, lemma_lines_of_append, lemma_lines_of_concat,
    lemma_lines_of_line, line_run, lines_of, strip_eol, strip_newline,
};
use super::fences::{
    FenceKind, GitignoreParseError, LineClass, OpenFence, Seg, classify, close_prefix, close_suffix,
    has_fence_id, is_fence_with_id, is_valid_slug, managed_tag, open_prefix, open_suffix,
    parse_segments, scan,
};
use crate::adaptors::Action;
use super::{
    FenceSpec, add_missing, apply_desired, append_fence, merge_all, merge_one, index_of_id, lemma_index_of_id_from, plan_gitignore,
    remove_stale, omit_actions, fence_index_from, lemma_fence_index_from, step, close_line, join_lines, managed_fence, omit_args, open_line, render,
    render_block, seg_raw, with_newline,
};

verus! {

/// A line that may stand outside the markers of a fence, or between them:
/// neither a marker nor something that looks like one.
pub open spec fn body_line(l: Seq<char>) -> bool {
    match classify(strip_eol(l)) {
        LineClass::Plain => true,
        LineClass::Omit(_) => true,
        _ => false,
    }
}

/// The lines a piece is made of.
pub open spec fn seg_lines(s: Seg) -> Seq<Seq<char>> {
    match s {
        Seg::Text(l) => seq![l],
        Seg::Fence { raw, .. } => lines_of(raw),
    }
}

/// A piece as reading a file yields it: a user line that is no marker, or a
/// fence whose first and last lines are its matching markers, whose other
/// lines are no markers, and whose `inner` is the text between the markers.
pub open spec fn seg_ok(s: Seg) -> bool {
    match s {
        Seg::Text(l) => is_line(l) && body_line(l),
        Seg::Fence { kind, id, raw, inner } => {
            let ls = lines_of(raw);
            &&& ls.len() >= 2
            &&& classify(strip_eol(ls[0])) == LineClass::Open(kind, id)
            &&& classify(strip_eol(ls.last())) == LineClass::Close(kind, id)
            &&& forall|k: int| 1 <= k < ls.len() - 1 ==> body_line(#[trigger] ls[k])
            &&& inner == strip_newline(concat(ls.subrange(1, ls.len() - 1)))
        },
    }
}

/// No two fences share an id.
pub open spec fn ids_unique(segs: Seq<Seg>) -> bool {
    forall|i: int, j: int, id: Seq<char>|
        0 <= i < segs.len() && 0 <= j < segs.len() && i != j && #[trigger] is_fence_with_id(
            segs[i],
            id,
        ) ==> !#[trigger] is_fence_with_id(segs[j], id)
}

/// Every piece but the last ends with a newline.
pub open spec fn terminated(segs: Seq<Seg>) -> bool {
    forall|k: int| 0 <= k < segs.len() - 1 ==> ends_in_newline(#[trigger] seg_raw(segs[k]))
}

/// The pieces of a file as reading it yields them.
pub open spec fn well_formed(segs: Seq<Seg>) -> bool {
    &&& forall|k: int| 0 <= k < segs.len() ==> seg_ok(#[trigger] segs[k])
    &&& ids_unique(segs)
    &&& terminated(segs)
}

/// The lines of all pieces, in order.
pub open spec fn all_lines(segs: Seq<Seg>) -> Seq<Seq<char>>
    decreases segs.len(),
{
    if segs.len() == 0 {
        seq![]
    } else {
        all_lines(segs.drop_last()) + seg_lines(segs.last())
    }
}

/// The text of the pieces is that of all but the last, then the last.
proof fn lemma_render_last(segs: Seq<Seg>)
    requires
        segs.len() > 0,
    ensures
        render(segs) == render(segs.drop_last()) + seg_raw(segs.last()),
{
    let f = |s: Seg| seg_raw(s);
    assert(segs.drop_last().map_values(f) =~= segs.map_values(f).drop_last());
}

/// Dropping the last piece keeps the pieces well formed.
proof fn lemma_well_formed_front(segs: Seq<Seg>)
    requires
        well_formed(segs),
        segs.len() > 0,
    ensures
        well_formed(segs.drop_last()),
{
    let front = segs.drop_last();
    assert forall|k: int| 0 <= k < front.len() implies seg_ok(#[trigger] front[k]) by {
        assert(front[k] == segs[k]);
    }
    assert forall|i: int, j: int, id: Seq<char>|
        0 <= i < front.len() && 0 <= j < front.len() && i != j && #[trigger] is_fence_with_id(
            front[i],
            id,
        ) implies !#[trigger] is_fence_with_id(front[j], id) by {
        assert(front[i] == segs[i]);
        assert(front[j] == segs[j]);
    }
    assert forall|k: int| 0 <= k < front.len() - 1 implies ends_in_newline(
        #[trigger] seg_raw(front[k]),
    ) by {
        assert(front[k] == segs[k]);
    }
}

/// The text of well-formed pieces splits into their lines.
proof fn lemma_lines_of_render(segs: Seq<Seg>)
    requires
        well_formed(segs),
    ensures
        lines_of(render(segs)) == all_lines(segs),
    decreases segs.len(),
{
    if segs.len() == 0 {
        assert(render(segs) =~= Seq::<char>::empty());
        assert(lines_of(seq![]) =~= Seq::<Seq<char>>::empty());
    } else {
        let front = segs.drop_last();
        lemma_well_formed_front(segs);
        lemma_lines_of_render(front);
        lemma_render_last(segs);
        if front.len() > 0 {
            lemma_render_last(front);
            assert(front.last() == segs[front.len() - 1]);
            assert(ends_in_newline(seg_raw(front.last())));
        }
        lemma_lines_of_append(render(front), seg_raw(segs.last()));
        assert(seg_ok(segs[segs.len() - 1]));
        match segs.last() {
            Seg::Text(l) => {
                lemma_lines_of_line(l);
            },
            Seg::Fence { .. } => {},
        }
    }
}

/// The middle lines of a fence are read into its body, one at a time.
proof fn lemma_scan_body(
    lines: Seq<Seq<char>>,
    j: int,
    ls: Seq<Seq<char>>,
    kind: FenceKind,
    id: Seq<char>,
    acc: Seq<Seg>,
    m: int,
)
    requires
        0 <= j,
        j + ls.len() <= lines.len(),
        lines.subrange(j, j + ls.len()) == ls,
        ls.len() >= 2,
        1 <= m <= ls.len() - 1,
        forall|k: int| 1 <= k < ls.len() - 1 ==> body_line(#[trigger] ls[k]),
    ensures
        scan(
            lines,
            j + m,
            Some(
                OpenFence {
                    kind: kind,
                    id: id,
                    head: ls[0],
                    body: concat(ls.subrange(1, m)),
                    line: j,
                },
            ),
            acc,
        ) == scan(
            lines,
            j + ls.len() - 1,
            Some(
                OpenFence {
                    kind: kind,
                    id: id,
                    head: ls[0],
                    body: concat(ls.subrange(1, ls.len() - 1)),
                    line: j,
                },
            ),
            acc,
        ),
    decreases ls.len() - 1 - m,
{
    if m < ls.len() - 1 {
        assert(lines[j + m] == ls[m]);
        assert(body_line(ls[m]));
        assert(ls.subrange(1, m + 1).drop_last() =~= ls.subrange(1, m));
        assert(ls.subrange(1, m + 1).last() == ls[m]);
        lemma_scan_body(lines, j, ls, kind, id, acc, m + 1);
    }
}

/// Reading the lines of one well-formed piece yields that piece.
proof fn lemma_scan_seg(lines: Seq<Seq<char>>, j: int, s: Seg, acc: Seq<Seg>)
    requires
        0 <= j,
        j + seg_lines(s).len() <= lines.len(),
        lines.subrange(j, j + seg_lines(s).len()) == seg_lines(s),
        seg_ok(s),
        forall|id: Seq<char>| is_fence_with_id(s, id) ==> !has_fence_id(acc, id),
    ensures
        scan(lines, j, None, acc) == scan(lines, j + seg_lines(s).len(), None, acc.push(s)),
{
    assert(lines[j] == seg_lines(s)[0]);
    match s {
        Seg::Text(l) => {},
        Seg::Fence { kind, id, raw, inner } => {
            let ls = lines_of(raw);
            let n = ls.len() as int;
            assert(is_fence_with_id(s, id));
            lemma_scan_body(lines, j, ls, kind, id, acc, 1);
            assert(ls.subrange(1, 1) =~= Seq::<Seq<char>>::empty());
            assert(lines[j + n - 1] == ls[n - 1]);
            let mid = ls.subrange(1, n - 1);
            lemma_lines_concat(raw);
            assert(ls.drop_last() =~= seq![ls[0]] + mid);
            lemma_concat_prepend(ls[0], mid);
            assert(concat(ls) == concat(ls.drop_last()) + ls.last());
            assert(raw =~= ls[0] + concat(mid) + ls.last());
        },
    }
}

/// Reading the lines of well-formed pieces yields those pieces.
#[verifier::spinoff_prover]
#[verifier::rlimit(40)]
proof fn lemma_scan_segs(lines: Seq<Seq<char>>, i: int, segs: Seq<Seg>, acc: Seq<Seg>)
    requires
        0 <= i,
        i + all_lines(segs).len() <= lines.len(),
        lines.subrange(i, i + all_lines(segs).len()) == all_lines(segs),
        well_formed(segs),
        forall|k: int, id: Seq<char>|
            0 <= k < segs.len() && #[trigger] is_fence_with_id(segs[k], id) ==> !has_fence_id(
                acc,
                id,
            ),
    ensures
        scan(lines, i, None, acc) == scan(lines, i + all_lines(segs).len(), None, acc + segs),
    decreases segs.len(),
{
    if segs.len() == 0 {
        assert(acc + segs =~= acc);
    } else {
        let front = segs.drop_last();
        let last = segs.last();
        let n1 = all_lines(front).len() as int;
        let n2 = seg_lines(last).len() as int;
        lemma_well_formed_front(segs);
        assert(lines.subrange(i, i + n1) =~= all_lines(segs).subrange(0, n1));
        assert(all_lines(segs).subrange(0, n1) =~= all_lines(front));
        assert forall|k: int, id: Seq<char>|
            0 <= k < front.len() && #[trigger] is_fence_with_id(front[k], id) implies !has_fence_id(
            acc,
            id,
        ) by {
            assert(front[k] == segs[k]);
        }
        lemma_scan_segs(lines, i, front, acc);
        assert(all_lines(segs) == all_lines(front) + seg_lines(last));
        assert(all_lines(segs).len() == n1 + n2);
        assert forall|t: int| 0 <= t < n2 implies #[trigger] lines.subrange(i + n1, i + n1 + n2)[t]
            == seg_lines(last)[t] by {
            assert(lines.subrange(i, i + n1 + n2)[n1 + t] == lines[i + n1 + t]);
            assert((all_lines(front) + seg_lines(last))[n1 + t] == seg_lines(last)[t]);
        }
        assert(lines.subrange(i + n1, i + n1 + n2) =~= seg_lines(last));
        assert forall|id: Seq<char>| is_fence_with_id(last, id) implies !has_fence_id(
            acc + front,
            id,
        ) by {
            assert(is_fence_with_id(segs[segs.len() - 1], id));
            if has_fence_id(acc + front, id) {
                let k = choose|k: int|
                    0 <= k < (acc + front).len() && is_fence_with_id(#[trigger] (acc + front)[k], id);
                if k < acc.len() {
                    assert((acc + front)[k] == acc[k]);
                } else {
                    assert((acc + front)[k] == segs[k - acc.len()]);
                }
            }
        }
        assert(seg_ok(segs[segs.len() - 1]));
        lemma_scan_seg(lines, i + n1, last, acc + front);
        assert((acc + front).push(last) =~= acc + segs);
    }
}

/// Well-formed pieces are read back from their text exactly.
pub proof fn lemma_parse_render(segs: Seq<Seg>)
    requires
        well_formed(segs),
    ensures
        parse_segments(render(segs)) == Ok::<Seq<Seg>, GitignoreParseError>(segs),
{
    lemma_lines_of_render(segs);
    let lines = all_lines(segs);
    assert(lines.subrange(0, lines.len() as int) =~= lines);
    assert forall|k: int, id: Seq<char>|
        0 <= k < segs.len() && #[trigger] is_fence_with_id(segs[k], id) implies !has_fence_id(
        Seq::<Seg>::empty(),
        id,
    ) by {}
    lemma_scan_segs(lines, 0, segs, seq![]);
    assert(Seq::<Seg>::empty() + segs =~= segs);
}

/// Adding a piece whose fence id (if any) is new keeps ids unique.
proof fn lemma_ids_unique_push(acc: Seq<Seg>, s: Seg)
    requires
        ids_unique(acc),
        forall|id: Seq<char>| is_fence_with_id(s, id) ==> !has_fence_id(acc, id),
    ensures
        ids_unique(acc.push(s)),
{
    let a2 = acc.push(s);
    assert forall|i: int, j: int, id: Seq<char>|
        0 <= i < a2.len() && 0 <= j < a2.len() && i != j && #[trigger] is_fence_with_id(
            a2[i],
            id,
        ) implies !#[trigger] is_fence_with_id(a2[j], id) by {
        if i < acc.len() && j < acc.len() {
            assert(a2[i] == acc[i]);
            assert(a2[j] == acc[j]);
        } else if i == acc.len() {
            assert(a2[j] == acc[j]);
            assert(!is_fence_with_id(acc[j], id));
        } else {
            assert(a2[i] == acc[i]);
            if is_fence_with_id(s, id) {
                assert(has_fence_id(acc, id));
            }
        }
    }
}

/// The text of the fence still open while reading.
pub open spec fn open_text(open: Option<OpenFence>) -> Seq<char> {
    match open {
        None => seq![],
        Some(o) => o.head + o.body,
    }
}

/// What holds at each step of reading the lines `lines`: the pieces read so
/// far are well formed, every one that more lines follow is terminated, and
/// together with the open fence they are exactly the lines read.
pub open spec fn scan_inv(lines: Seq<Seq<char>>, i: int, open: Option<OpenFence>, acc: Seq<Seg>) -> bool {
    &&& line_run(lines)
    &&& 0 <= i <= lines.len()
    &&& forall|k: int| 0 <= k < acc.len() ==> seg_ok(#[trigger] acc[k])
    &&& ids_unique(acc)
    &&& forall|k: int|
        0 <= k < acc.len() && (k < acc.len() - 1 || i < lines.len() || open is Some)
            ==> ends_in_newline(#[trigger] seg_raw(acc[k]))
    &&& render(acc) + open_text(open) == concat(lines.take(i))
    &&& match open {
        None => true,
        Some(o) => {
            &&& 0 <= o.line < i
            &&& lines[o.line] == o.head
            &&& classify(strip_eol(o.head)) == LineClass::Open(o.kind, o.id)
            &&& o.body == concat(lines.subrange(o.line + 1, i))
            &&& forall|k: int| o.line < k < i ==> body_line(#[trigger] lines[k])
        },
    }
}

/// `lines.take(i + 1)` put together.
proof fn lemma_concat_take_next(lines: Seq<Seq<char>>, i: int)
    requires
        0 <= i < lines.len(),
    ensures
        concat(lines.take(i + 1)) == concat(lines.take(i)) + lines[i],
{
    assert(lines.take(i + 1).drop_last() =~= lines.take(i));
}

/// `lines[a..b + 1]` put together.
proof fn lemma_concat_subrange_next(lines: Seq<Seq<char>>, a: int, b: int)
    requires
        0 <= a <= b < lines.len(),
    ensures
        concat(lines.subrange(a, b + 1)) == concat(lines.subrange(a, b)) + lines[b],
{
    assert(lines.subrange(a, b + 1).drop_last() =~= lines.subrange(a, b));
}

/// Reading a user line outside any fence keeps [`scan_inv`].
#[verifier::spinoff_prover]
#[verifier::rlimit(40)]
proof fn lemma_scan_text_step(lines: Seq<Seq<char>>, i: int, acc: Seq<Seg>)
    requires
        scan_inv(lines, i, None, acc),
        i < lines.len(),
        body_line(lines[i]),
    ensures
        scan_inv(lines, i + 1, None, acc.push(Seg::Text(lines[i]))),
{
    let l = lines[i];
    lemma_concat_take_next(lines, i);
    assert(is_line(l));
    assert(i + 1 < lines.len() ==> ends_in_newline(l));
    let s = Seg::Text(l);
    let a2 = acc.push(s);
    lemma_ids_unique_push(acc, s);
    lemma_render_last(a2);
    assert(a2.drop_last() =~= acc);
    assert forall|k: int| 0 <= k < a2.len() implies seg_ok(#[trigger] a2[k]) by {
        if k < acc.len() {
            assert(a2[k] == acc[k]);
        }
    }
    assert forall|k: int|
        0 <= k < a2.len() && (k < a2.len() - 1 || i + 1 < lines.len()
            || false) implies ends_in_newline(#[trigger] seg_raw(a2[k])) by {
        if k < acc.len() {
            assert(a2[k] == acc[k]);
        }
    }
    assert(render(a2) + open_text(None) =~= render(acc) + open_text(None) + l);
}

/// Reading the close marker of the open fence keeps [`scan_inv`].
#[verifier::spinoff_prover]
#[verifier::rlimit(40)]
proof fn lemma_scan_close_step(lines: Seq<Seq<char>>, i: int, o: OpenFence, acc: Seq<Seg>)
    requires
        scan_inv(lines, i, Some(o), acc),
        i < lines.len(),
        classify(strip_eol(lines[i])) == LineClass::Close(o.kind, o.id),
        !has_fence_id(acc, o.id),
    ensures
        scan_inv(
            lines,
            i + 1,
            None,
            acc.push(
                Seg::Fence {
                    kind: o.kind,
                    id: o.id,
                    raw: o.head + o.body + lines[i],
                    inner: strip_newline(o.body),
                },
            ),
        ),
{
    let l = lines[i];
    lemma_concat_take_next(lines, i);
    assert(is_line(l));
    assert(i + 1 < lines.len() ==> ends_in_newline(l));
    let raw = o.head + o.body + l;
    let ls = lines.subrange(o.line, i + 1);
    let s = Seg::Fence { kind: o.kind, id: o.id, raw: raw, inner: strip_newline(o.body) };
    assert(line_run(ls)) by {
        assert forall|t: int| 0 <= t < ls.len() implies is_line(#[trigger] ls[t]) by {
            assert(ls[t] == lines[o.line + t]);
        }
        assert forall|t: int| 0 <= t < ls.len() - 1 implies ends_in_newline(#[trigger] ls[t]) by {
            assert(ls[t] == lines[o.line + t]);
        }
    }
    lemma_concat_subrange_next(lines, o.line, i);
    assert(lines.subrange(o.line, i) =~= seq![lines[o.line]] + lines.subrange(o.line + 1, i));
    lemma_concat_prepend(lines[o.line], lines.subrange(o.line + 1, i));
    assert(concat(ls) =~= raw);
    lemma_lines_of_concat(ls);
    assert(ls.subrange(1, ls.len() - 1) =~= lines.subrange(o.line + 1, i));
    assert forall|t: int| 1 <= t < ls.len() - 1 implies body_line(#[trigger] ls[t]) by {
        assert(ls[t] == lines[o.line + t]);
    }
    assert(seg_ok(s));
    let a2 = acc.push(s);
    lemma_ids_unique_push(acc, s);
    lemma_render_last(a2);
    assert(a2.drop_last() =~= acc);
    assert forall|t: int| 0 <= t < a2.len() implies seg_ok(#[trigger] a2[t]) by {
        if t < acc.len() {
            assert(a2[t] == acc[t]);
        }
    }
    assert(raw.last() == l.last());
    assert forall|t: int|
        0 <= t < a2.len() && (t < a2.len() - 1 || i + 1 < lines.len() || false) implies ends_in_newline(
        #[trigger] seg_raw(a2[t]),
    ) by {
        if t < acc.len() {
            assert(a2[t] == acc[t]);
        }
    }
    assert(render(a2) + open_text(None) =~= render(acc) + open_text(Some(o)) + l);
}

/// Reading keeps [`scan_inv`]; what it yields is well formed and is the
/// whole text.
#[verifier::spinoff_prover]
#[verifier::rlimit(40)]
proof fn lemma_scan_result(lines: Seq<Seq<char>>, i: int, open: Option<OpenFence>, acc: Seq<Seg>)
    requires
        scan_inv(lines, i, open, acc),
    ensures
        match scan(lines, i, open, acc) {
            Ok(segs) => well_formed(segs) && render(segs) == concat(lines),
            Err(_) => true,
        },
    decreases lines.len() - i,
{
    if i >= lines.len() {
        if open is None {
            assert(lines.take(i) =~= lines);
            assert(render(acc) + open_text(open) =~= render(acc));
        }
    } else {
        let l = lines[i];
        match open {
            None => {
                match classify(strip_eol(l)) {
                    LineClass::Open(k, id) => {
                        lemma_concat_take_next(lines, i);
                        let o = OpenFence { kind: k, id: id, head: l, body: seq![], line: i };
                        assert(lines.subrange(i + 1, i + 1) =~= Seq::<Seq<char>>::empty());
                        assert(render(acc) + open_text(Some(o)) =~= render(acc) + open_text(open) + l);
                        lemma_scan_result(lines, i + 1, Some(o), acc);
                    },
                    LineClass::Close(_, _) => {},
                    LineClass::Malformed => {},
                    _ => {
                        lemma_scan_text_step(lines, i, acc);
                        lemma_scan_result(lines, i + 1, None, acc.push(Seg::Text(l)));
                    },
                }
            },
            Some(o) => {
                match classify(strip_eol(l)) {
                    LineClass::Close(k, id) => {
                        if k == o.kind && id == o.id && !has_fence_id(acc, id) {
                            lemma_scan_close_step(lines, i, o, acc);
                            lemma_scan_result(
                                lines,
                                i + 1,
                                None,
                                acc.push(
                                    Seg::Fence {
                                        kind: k,
                                        id: id,
                                        raw: o.head + o.body + l,
                                        inner: strip_newline(o.body),
                                    },
                                ),
                            );
                        }
                    },
                    LineClass::Open(_, _) => {},
                    LineClass::Malformed => {},
                    _ => {
                        lemma_concat_take_next(lines, i);
                        let o2 = OpenFence { body: o.body + l, ..o };
                        lemma_concat_subrange_next(lines, o.line + 1, i);
                        assert(render(acc) + open_text(Some(o2)) =~= render(acc) + open_text(open)
                            + l);
                        lemma_scan_result(lines, i + 1, Some(o2), acc);
                    },
                }
            },
        }
    }
}

/// What reading yields is well formed, and is the whole text.
pub proof fn lemma_parse_well_formed(content: Seq<char>)
    ensures
        match parse_segments(content) {
            Ok(segs) => well_formed(segs) && render(segs) == content,
            Err(_) => true,
        },
{
    let lines = lines_of(content);
    lemma_lines_from_run(content, 0);
    lemma_lines_concat(content);
    assert(lines.take(0) =~= Seq::<Seq<char>>::empty());
    assert(render(Seq::<Seg>::empty()) =~= Seq::<char>::empty());
    assert(render(Seq::<Seg>::empty()) + open_text(None) =~= concat(lines.take(0)));
    lemma_scan_result(lines, 0, None, seq![]);
}

/// Reading a `.gitignore` into user lines and fences loses nothing: written
/// back in order, the pieces give the file exactly.
pub proof fn law_parse_lossless(content: Seq<char>)
    requires
        parse_segments(content) is Ok,
    ensures
        render(parse_segments(content)->Ok_0) == content,
{
    lemma_parse_well_formed(content);
}

/// A line a desired fence may hold: one line, no marker, written back as is.
pub open spec fn fence_line_ok(l: Seq<char>) -> bool {
    free_of(l, '\n') && body_line(l.push('\n'))
}

/// `free_of` over a concatenation.
proof fn lemma_free_of_add(a: Seq<char>, b: Seq<char>, c: char)
    requires
        free_of(a, c),
        free_of(b, c),
    ensures
        free_of(a + b, c),
{
    assert forall|k: int| 0 <= k < (a + b).len() implies (a + b)[k] != c by {
        if k < a.len() {
            assert((a + b)[k] == a[k]);
        } else {
            assert((a + b)[k] == b[k - a.len()]);
        }
    }
}

/// The marker texts hold no newline, and open and close markers differ in
/// their first characters.
proof fn lemma_marker_literals()
    ensures
        free_of(open_prefix(), '\n'),
        free_of(close_prefix(), '\n'),
        free_of(open_suffix(), '\n'),
        free_of(close_suffix(), '\n'),
        free_of(managed_tag(), '\n'),
        open_prefix().len() == close_prefix().len(),
        close_prefix().len() > 2,
        open_prefix()[2] != close_prefix()[2],
        open_suffix().len() > 0 && open_suffix().last() != '\r',
        close_suffix().len() > 0 && close_suffix().last() != '\r',
        super::fences::omit_prefix().len() > 0,
{
    reveal_strlit("# yard:omit ");
    reveal_strlit("# >>> yard:");
    reveal_strlit("# <<< yard:");
    reveal_strlit(" >>>");
    reveal_strlit(" <<<");
    reveal_strlit("managed id=");
}

/// A valid fence id holds no newline.
proof fn lemma_slug_free(id: Seq<char>)
    requires
        is_valid_slug(id),
    ensures
        free_of(id, '\n'),
{
    assert forall|k: int| 0 <= k < id.len() implies id[k] != '\n' by {
        assert(super::fences::is_slug_char(id[k]));
    }
}

/// How a marker line `pre + managed_tag() + id + suf` classifies, when `pre`
/// and `suf` frame it.
proof fn lemma_marker_parse(pre: Seq<char>, suf: Seq<char>, id: Seq<char>)
    requires
        is_valid_slug(id),
    ensures
        super::fences::parse_marker(pre + managed_tag() + id + suf, pre, suf) == Some(
            (FenceKind::Managed, id),
        ),
        crate::text::starts_with(pre + managed_tag() + id + suf, pre),
{
    let t = pre + managed_tag() + id + suf;
    assert(t.subrange(0, pre.len() as int) =~= pre);
    assert(t.subrange(t.len() - suf.len(), t.len() as int) =~= suf);
    let body = t.subrange(pre.len() as int, t.len() - suf.len());
    assert(body =~= managed_tag() + id);
    assert(body.subrange(0, managed_tag().len() as int) =~= managed_tag());
    assert(body.skip(managed_tag().len() as int) =~= id);
}

/// The open and close lines of a managed fence classify as its markers.
#[verifier::spinoff_prover]
#[verifier::rlimit(40)]
proof fn lemma_managed_markers(id: Seq<char>)
    requires
        is_valid_slug(id),
    ensures
        classify(strip_eol(open_line(id).push('\n'))) == LineClass::Open(FenceKind::Managed, id),
        classify(strip_eol(close_line(id).push('\n'))) == LineClass::Close(FenceKind::Managed, id),
        is_line(open_line(id).push('\n')),
        is_line(close_line(id).push('\n')),
{
    lemma_marker_literals();
    lemma_slug_free(id);
    let o = open_line(id);
    let c = close_line(id);
    lemma_free_of_add(open_prefix(), managed_tag(), '\n');
    lemma_free_of_add(open_prefix() + managed_tag(), id, '\n');
    lemma_free_of_add(open_prefix() + managed_tag() + id, open_suffix(), '\n');
    lemma_free_of_add(close_prefix(), managed_tag(), '\n');
    lemma_free_of_add(close_prefix() + managed_tag(), id, '\n');
    lemma_free_of_add(close_prefix() + managed_tag() + id, close_suffix(), '\n');
    assert(o.push('\n').drop_last() =~= o);
    assert(c.push('\n').drop_last() =~= c);
    assert(o.last() == open_suffix().last());
    assert(c.last() == close_suffix().last());
    assert(strip_eol(o.push('\n')) == o);
    assert(strip_eol(c.push('\n')) == c);
    lemma_marker_parse(open_prefix(), open_suffix(), id);
    lemma_marker_parse(close_prefix(), close_suffix(), id);
    assert(c =~= close_prefix() + (managed_tag() + id + close_suffix()));
    assert(c[2] == close_prefix()[2]);
    assert(!crate::text::starts_with(c, open_prefix())) by {
        if crate::text::starts_with(c, open_prefix()) {
            assert(c.subrange(0, open_prefix().len() as int)[2] == c[2]);
        }
    }
    assert forall|k: int| 0 <= k < o.push('\n').len() - 1 implies o.push('\n')[k] != '\n' by {
        assert(o.push('\n')[k] == o[k]);
    }
    assert forall|k: int| 0 <= k < c.push('\n').len() - 1 implies c.push('\n')[k] != '\n' by {
        assert(c.push('\n')[k] == c[k]);
    }
}

/// Each line of `ls` with a newline added.
pub open spec fn nl_lines(ls: Seq<Seq<char>>) -> Seq<Seq<char>> {
    ls.map_values(|l: Seq<char>| l.push('\n'))
}

/// Lines joined by newlines, then terminated, are the lines each terminated.
proof fn lemma_join_lines_nl(ls: Seq<Seq<char>>)
    requires
        ls.len() >= 1,
    ensures
        concat(nl_lines(ls)) == join_lines(ls).push('\n'),
    decreases ls.len(),
{
    if ls.len() == 1 {
        assert(nl_lines(ls).drop_last() =~= Seq::<Seq<char>>::empty());
        assert(concat(Seq::<Seq<char>>::empty()) + ls[0].push('\n') =~= ls[0].push('\n'));
    } else {
        let front = ls.drop_last();
        lemma_join_lines_nl(front);
        assert(nl_lines(ls).drop_last() =~= nl_lines(front));
        assert(join_lines(front).push('\n') + ls.last().push('\n') =~= (join_lines(front) + seq!['\n']
            + ls.last()).push('\n'));
    }
}

/// A managed fence written from a valid id and acceptable lines is a
/// well-formed, terminated piece.
#[verifier::spinoff_prover]
#[verifier::rlimit(40)]
proof fn lemma_managed_fence_ok(id: Seq<char>, ls: Seq<Seq<char>>)
    requires
        is_valid_slug(id),
        forall|t: int| 0 <= t < ls.len() ==> fence_line_ok(#[trigger] ls[t]),
    ensures
        seg_ok(managed_fence(id, join_lines(ls))),
        ends_in_newline(render_block(id, join_lines(ls))),
{
    let inner = join_lines(ls);
    lemma_managed_markers(id);
    let a = open_line(id).push('\n');
    let b = close_line(id).push('\n');
    let mids = if inner.len() == 0 {
        Seq::<Seq<char>>::empty()
    } else {
        nl_lines(ls)
    };
    if inner.len() > 0 {
        if ls.len() == 0 {
            assert(false);
        }
        lemma_join_lines_nl(ls);
    }
    assert(concat(mids) == (if inner.len() == 0 {
        Seq::<char>::empty()
    } else {
        inner + seq!['\n']
    }));
    let all = seq![a] + (mids + seq![b]);
    lemma_concat_prepend(a, mids + seq![b]);
    assert((mids + seq![b]).drop_last() =~= mids);
    assert(concat(all) =~= render_block(id, inner));
    assert(line_run(all)) by {
        assert forall|k: int| 0 <= k < all.len() implies is_line(#[trigger] all[k]) by {
            if 0 < k < all.len() - 1 {
                assert(all[k] == ls[k - 1].push('\n'));
                assert(fence_line_ok(ls[k - 1]));
            }
        }
        assert forall|k: int| 0 <= k < all.len() - 1 implies ends_in_newline(#[trigger] all[k]) by {
            if 0 < k {
                assert(all[k] == ls[k - 1].push('\n'));
            }
        }
    }
    lemma_lines_of_concat(all);
    assert(all.subrange(1, all.len() - 1) =~= mids);
    assert forall|k: int| 1 <= k < all.len() - 1 implies body_line(#[trigger] all[k]) by {
        assert(all[k] == ls[k - 1].push('\n'));
        assert(fence_line_ok(ls[k - 1]));
    }
    if inner.len() > 0 {
        assert(inner.push('\n').drop_last() =~= inner);
    }
    assert(all.last() == b);
    let l2 = lines_of(render_block(id, inner));
    assert(l2 == all);
    assert(l2.len() >= 2);
    assert(l2[0] == a);
    assert(classify(strip_eol(l2[0])) == LineClass::Open(FenceKind::Managed, id));
    assert(classify(strip_eol(l2.last())) == LineClass::Close(FenceKind::Managed, id));
    assert(forall|k: int| 1 <= k < l2.len() - 1 ==> body_line(#[trigger] l2[k]));
    assert(concat(l2.subrange(1, l2.len() - 1)) == concat(mids));
    assert(inner == strip_newline(concat(l2.subrange(1, l2.len() - 1))));
}

/// The argument of a piece that is a `# yard:omit <arg>` line.
pub open spec fn seg_omit(s: Seg) -> Option<Seq<char>> {
    match s {
        Seg::Text(l) => match classify(strip_eol(l)) {
            LineClass::Omit(arg) => Some(arg),
            _ => None,
        },
        _ => None,
    }
}

/// The kind, id and inner text of a piece that is a fence.
pub open spec fn fence_info(s: Seg) -> Option<(FenceKind, Seq<char>, Seq<char>)> {
    match s {
        Seg::Fence { kind, id, inner, .. } => Some((kind, id, inner)),
        Seg::Text(_) => None,
    }
}

/// Replacing a piece by one with the same omit argument keeps the omit
/// arguments.
proof fn lemma_omit_args_update(segs: Seq<Seg>, k: int, x: Seg)
    requires
        0 <= k < segs.len(),
        seg_omit(x) == seg_omit(segs[k]),
    ensures
        omit_args(segs.update(k, x)) == omit_args(segs),
    decreases segs.len(),
{
    let u = segs.update(k, x);
    if k < segs.len() - 1 {
        assert(u.drop_last() =~= segs.drop_last().update(k, x));
        lemma_omit_args_update(segs.drop_last(), k, x);
        assert(u.last() == segs.last());
    } else {
        assert(u.drop_last() =~= segs.drop_last());
    }
}

/// Adding a piece that is no omit line keeps the omit arguments.
proof fn lemma_omit_args_push(segs: Seq<Seg>, x: Seg)
    requires
        seg_omit(x) is None,
    ensures
        omit_args(segs.push(x)) == omit_args(segs),
{
    assert(segs.push(x).drop_last() =~= segs);
}

/// Terminating an unterminated well-formed piece keeps it well formed, with
/// the same fence data and omit argument.
#[verifier::spinoff_prover]
#[verifier::rlimit(40)]
proof fn lemma_with_newline_ok(s: Seg)
    requires
        seg_ok(s),
        !ends_in_newline(seg_raw(s)),
    ensures
        seg_ok(with_newline(s)),
        ends_in_newline(seg_raw(with_newline(s))),
        fence_info(with_newline(s)) == fence_info(s),
        seg_omit(with_newline(s)) == seg_omit(s),
        forall|id: Seq<char>| is_fence_with_id(with_newline(s), id) == is_fence_with_id(s, id),
{
    match s {
        Seg::Text(l) => {
            let l2 = l.push('\n');
            assert(l2.drop_last() =~= l);
            assert(strip_newline(l) == l);
            assert(strip_eol(l2) == strip_eol(l));
            assert forall|k: int| 0 <= k < l2.len() - 1 implies l2[k] != '\n' by {
                assert(l2[k] == l[k]);
            }
        },
        Seg::Fence { kind, id, raw, inner } => {
            let ls = lines_of(raw);
            let n = ls.len() as int;
            let last2 = ls.last().push('\n');
            let ls2 = ls.update(n - 1, last2);
            lemma_lines_from_run(raw, 0);
            lemma_lines_concat(raw);
            assert(ls.drop_last() =~= ls2.drop_last());
            assert(concat(ls2) == concat(ls2.drop_last()) + last2);
            assert(concat(ls) == concat(ls.drop_last()) + ls.last());
            assert(concat(ls2) =~= raw.push('\n'));
            assert(ls.last().len() > 0);
            assert(raw.last() == ls.last().last()) by {
                lemma_concat_last(ls);
            }
            assert(last2.drop_last() =~= ls.last());
            assert(is_line(ls.last()));
            assert(line_run(ls2)) by {
                assert forall|k: int| 0 <= k < ls2.len() implies is_line(#[trigger] ls2[k]) by {
                    if k == n - 1 {
                        assert forall|t: int| 0 <= t < last2.len() - 1 implies last2[t] != '\n' by {
                            assert(last2[t] == ls.last()[t]);
                        }
                    } else {
                        assert(ls2[k] == ls[k]);
                    }
                }
                assert forall|k: int| 0 <= k < ls2.len() - 1 implies ends_in_newline(
                    #[trigger] ls2[k],
                ) by {
                    assert(ls2[k] == ls[k]);
                }
            }
            lemma_lines_of_concat(ls2);
            assert(strip_newline(ls.last()) == ls.last());
            assert(strip_eol(last2) == strip_eol(ls.last()));
            assert(ls2.subrange(1, n - 1) =~= ls.subrange(1, n - 1));
            assert(ls2[0] == ls[0]);
            assert forall|k: int| 1 <= k < ls2.len() - 1 implies body_line(#[trigger] ls2[k]) by {
                assert(ls2[k] == ls[k]);
            }
        },
    }
}

/// Desired fences that an apply writes back as it reads them: valid,
/// distinct ids and acceptable lines.
pub open spec fn desired_ok(fs: Seq<FenceSpec>) -> bool {
    &&& forall|i: int| 0 <= i < fs.len() ==> is_valid_slug(#[trigger] fs[i].0)
    &&& forall|i: int, t: int|
        0 <= i < fs.len() && 0 <= t < fs[i].1.len() ==> fence_line_ok(#[trigger] fs[i].1[t])
    &&& forall|i: int, j: int| 0 <= i < j < fs.len() ==> #[trigger] fs[i].0 != #[trigger] fs[j].0
}

/// Lines from the `t`-th on that no check refuses are all lines a fence
/// can hold.
proof fn lemma_lines_writable(ls: Seq<Seq<char>>, t: int)
    requires
        0 <= t,
        super::unwritable_line_from(ls, t) is None,
    ensures
        forall|u: int| t <= u < ls.len() ==> fence_line_ok(#[trigger] ls[u]),
    decreases ls.len() - t,
{
    if t < ls.len() {
        lemma_lines_writable(ls, t + 1);
    }
}

/// Fences from the `i`-th on that no check refuses have slugs as ids, ids
/// no earlier fence has, and lines a fence can hold.
proof fn lemma_desired_checked(fs: Seq<FenceSpec>, i: int)
    requires
        0 <= i,
        super::desired_error_from(fs, i) is None,
    ensures
        forall|k: int| i <= k < fs.len() ==> is_valid_slug(#[trigger] fs[k].0) && !(index_of_id(fs, fs[k].0) < k)
            && super::unwritable_line_from(fs[k].1, 0) is None,
    decreases fs.len() - i,
{
    if i < fs.len() {
        lemma_desired_checked(fs, i + 1);
    }
}

/// Planning succeeds only for desired fences yard can write and read back:
/// their ids are distinct slugs and their lines are single lines that do
/// not read as yard markers.
pub proof fn law_planned_fences_ok(fs: Seq<FenceSpec>, existing: Option<Seq<char>>)
    requires
        plan_gitignore(fs, existing) is Ok,
    ensures
        desired_ok(fs),
{
    lemma_desired_checked(fs, 0);
    assert forall|i: int, t: int| 0 <= i < fs.len() && 0 <= t < fs[i].1.len() implies fence_line_ok(
        #[trigger] fs[i].1[t],
    ) by {
        assert(is_valid_slug(fs[i].0));
        lemma_lines_writable(fs[i].1, 0);
    }
    assert forall|i: int, j: int| 0 <= i < j < fs.len() implies #[trigger] fs[i].0 != #[trigger] fs[j].0 by {
        assert(is_valid_slug(fs[j].0));
        lemma_index_of_id_from(fs, fs[j].0, 0);
    }
}

/// Lines a fence can hold pass the check from any point on.
proof fn lemma_lines_pass(ls: Seq<Seq<char>>, t: int)
    requires
        0 <= t,
        forall|u: int| 0 <= u < ls.len() ==> fence_line_ok(#[trigger] ls[u]),
    ensures
        super::unwritable_line_from(ls, t) is None,
    decreases ls.len() - t,
{
    if t < ls.len() {
        assert(fence_line_ok(ls[t]));
        lemma_lines_pass(ls, t + 1);
    }
}

/// Fences yard can write pass the check from any point on.
proof fn lemma_desired_pass(fs: Seq<FenceSpec>, i: int)
    requires
        0 <= i,
        desired_ok(fs),
    ensures
        super::desired_error_from(fs, i) is None,
    decreases fs.len() - i,
{
    if i < fs.len() {
        assert(is_valid_slug(fs[i].0));
        lemma_index_of_id_from(fs, fs[i].0, 0);
        let x = index_of_id(fs, fs[i].0);
        if 0 <= x < i {
            assert(fs[x].0 != fs[i].0);
        }
        assert forall|u: int| 0 <= u < fs[i].1.len() implies fence_line_ok(#[trigger] fs[i].1[u]) by {}
        lemma_lines_pass(fs[i].1, 0);
        lemma_desired_pass(fs, i + 1);
    }
}

/// With no `.gitignore` on disk, planning succeeds exactly for desired
/// fences yard can write and read back (ids that are distinct slugs,
/// lines that are single lines and no markers), and then writes a file
/// exactly when some fence is desired.
pub proof fn law_no_file_plans(fs: Seq<FenceSpec>)
    ensures
        plan_gitignore(fs, None) is Ok <==> desired_ok(fs),
        plan_gitignore(fs, None) is Ok ==> (plan_gitignore(fs, None)->Ok_0.contents is Some) == (fs.len() > 0),
{
    if desired_ok(fs) {
        lemma_desired_pass(fs, 0);
        assert(lines_of(Seq::<char>::empty()) =~= Seq::<Seq<char>>::empty());
    }
    if plan_gitignore(fs, None) is Ok {
        law_planned_fences_ok(fs, None);
    }
}

/// A fence that reconciling `f` leaves alone: overridden, or holding
/// exactly `f`'s lines.
pub open spec fn fence_settled(s: Seg, f: FenceSpec) -> bool {
    match s {
        Seg::Fence { kind, inner, .. } => kind == FenceKind::Overridden || inner == join_lines(f.1),
        Seg::Text(_) => true,
    }
}

/// Reconciling `f` against `segs` changes nothing: every fence with its id
/// is settled, and without one the id is omitted.
pub open spec fn settled(segs: Seq<Seg>, omits: Seq<Seq<char>>, f: FenceSpec) -> bool {
    &&& forall|k: int|
        0 <= k < segs.len() && #[trigger] is_fence_with_id(segs[k], f.0) ==> fence_settled(
            segs[k],
            f,
        )
    &&& (forall|k: int| 0 <= k < segs.len() ==> !#[trigger] is_fence_with_id(segs[k], f.0))
        ==> omits.contains(f.0)
}

/// Adding a well-formed piece after a terminated one, with a new fence id,
/// keeps the pieces well formed.
proof fn lemma_push_wf(segs: Seq<Seg>, x: Seg)
    requires
        well_formed(segs),
        seg_ok(x),
        segs.len() > 0 ==> ends_in_newline(seg_raw(segs.last())),
        forall|id: Seq<char>| is_fence_with_id(x, id) ==> !has_fence_id(segs, id),
    ensures
        well_formed(segs.push(x)),
{
    let a2 = segs.push(x);
    lemma_ids_unique_push(segs, x);
    assert forall|k: int| 0 <= k < a2.len() implies seg_ok(#[trigger] a2[k]) by {
        if k < segs.len() {
            assert(a2[k] == segs[k]);
        }
    }
    assert forall|k: int| 0 <= k < a2.len() - 1 implies ends_in_newline(#[trigger] seg_raw(a2[k])) by {
        assert(a2[k] == segs[k]);
    }
}

/// Replacing a piece by a well-formed, terminated one with the same fence
/// id keeps the pieces well formed.
proof fn lemma_update_wf(segs: Seq<Seg>, k: int, x: Seg)
    requires
        well_formed(segs),
        0 <= k < segs.len(),
        seg_ok(x),
        ends_in_newline(seg_raw(x)) || k == segs.len() - 1,
        forall|id: Seq<char>| is_fence_with_id(x, id) == is_fence_with_id(segs[k], id),
    ensures
        well_formed(segs.update(k, x)),
{
    let u = segs.update(k, x);
    assert forall|t: int| 0 <= t < u.len() implies seg_ok(#[trigger] u[t]) by {
        if t != k {
            assert(u[t] == segs[t]);
        }
    }
    assert forall|i: int, j: int, id: Seq<char>|
        0 <= i < u.len() && 0 <= j < u.len() && i != j && #[trigger] is_fence_with_id(u[i], id)
            implies !#[trigger] is_fence_with_id(u[j], id) by {
        assert(is_fence_with_id(segs[i], id));
        if is_fence_with_id(u[j], id) {
            assert(is_fence_with_id(segs[j], id));
        }
    }
    assert forall|t: int| 0 <= t < u.len() - 1 implies ends_in_newline(#[trigger] seg_raw(u[t])) by {
        if t != k {
            assert(u[t] == segs[t]);
        }
    }
}

/// The blank line an apply writes before an appended fence is a plain user
/// line.
proof fn lemma_blank_line_ok()
    ensures
        seg_ok(Seg::Text(seq!['\n'])),
        seg_omit(Seg::Text(seq!['\n'])) is None,
{
    lemma_marker_literals();
    let l = seq!['\n'];
    assert(l.drop_last() =~= Seq::<char>::empty());
    assert(strip_eol(l) =~= Seq::<char>::empty());
    assert(!crate::text::starts_with(Seq::<char>::empty(), open_prefix()));
    assert(!crate::text::starts_with(Seq::<char>::empty(), close_prefix()));
    assert(!crate::text::starts_with(Seq::<char>::empty(), super::fences::omit_prefix()));
}

/// Appending a fence with a new id keeps the pieces well formed and their
/// omit lines, and leaves the fences already there as they were.
#[verifier::spinoff_prover]
#[verifier::rlimit(40)]
proof fn lemma_append_fence_ok(segs: Seq<Seg>, id: Seq<char>, ls: Seq<Seq<char>>)
    requires
        well_formed(segs),
        is_valid_slug(id),
        forall|t: int| 0 <= t < ls.len() ==> fence_line_ok(#[trigger] ls[t]),
        forall|k: int| 0 <= k < segs.len() ==> !#[trigger] is_fence_with_id(segs[k], id),
    ensures
        ({
            let s2 = append_fence(segs, id, join_lines(ls));
            &&& well_formed(s2)
            &&& omit_args(s2) == omit_args(segs)
            &&& s2.len() > segs.len()
            &&& s2.last() == managed_fence(id, join_lines(ls))
            &&& forall|k: int| 0 <= k < segs.len() ==> fence_info(#[trigger] s2[k]) == fence_info(segs[k])
            &&& forall|k: int, i: Seq<char>|
                0 <= k < segs.len() ==> #[trigger] is_fence_with_id(s2[k], i) == is_fence_with_id(
                    segs[k],
                    i,
                )
            &&& forall|k: int, i: Seq<char>|
                segs.len() <= k < s2.len() - 1 ==> !#[trigger] is_fence_with_id(s2[k], i)
        }),
{
    let inner = join_lines(ls);
    let m = managed_fence(id, inner);
    lemma_managed_fence_ok(id, ls);
    let s2 = append_fence(segs, id, inner);
    if segs.len() == 0 {
        assert(s2 =~= seq![m]);
        lemma_push_wf(segs, m);
        assert(segs.push(m) =~= s2);
        lemma_omit_args_push(segs, m);
    } else {
        let n = segs.len() as int;
        let fixed = if ends_in_newline(seg_raw(segs.last())) {
            segs
        } else {
            segs.update(n - 1, with_newline(segs.last()))
        };
        assert(seg_ok(segs[n - 1]));
        if !ends_in_newline(seg_raw(segs.last())) {
            lemma_with_newline_ok(segs.last());
            lemma_update_wf(segs, n - 1, with_newline(segs.last()));
            lemma_omit_args_update(segs, n - 1, with_newline(segs.last()));
        }
        assert(ends_in_newline(seg_raw(fixed.last())));
        assert forall|k: int| 0 <= k < n implies fence_info(#[trigger] fixed[k]) == fence_info(segs[k])
            && forall|i: Seq<char>| #[trigger] is_fence_with_id(fixed[k], i) == is_fence_with_id(
            segs[k],
            i,
        ) by {}
        let blank = Seg::Text(seq!['\n']);
        lemma_blank_line_ok();
        lemma_push_wf(fixed, blank);
        lemma_omit_args_push(fixed, blank);
        let f2 = fixed.push(blank);
        assert forall|i: Seq<char>| is_fence_with_id(m, i) implies !has_fence_id(f2, i) by {
            if has_fence_id(f2, i) {
                let k = choose|k: int| 0 <= k < f2.len() && is_fence_with_id(#[trigger] f2[k], i);
                if k < n {
                    assert(f2[k] == fixed[k]);
                    assert(is_fence_with_id(segs[k], i));
                }
            }
        }
        lemma_push_wf(f2, m);
        lemma_omit_args_push(f2, m);
        assert(s2 == f2.push(m));
        assert forall|k: int| 0 <= k < n implies fence_info(#[trigger] s2[k]) == fence_info(segs[k]) by {
            assert(s2[k] == fixed[k]);
        }
        assert forall|k: int, i: Seq<char>| 0 <= k < n implies #[trigger] is_fence_with_id(s2[k], i)
            == is_fence_with_id(segs[k], i) by {
            assert(s2[k] == fixed[k]);
        }
        assert forall|k: int, i: Seq<char>| n <= k < s2.len() - 1 implies !#[trigger] is_fence_with_id(
            s2[k],
            i,
        ) by {
            assert(s2[k] == blank);
        }
    }
}

/// How the pieces before and after reconciling the fence with id `id0`
/// relate on every other id: the same fences, at the same places.
pub open spec fn same_other_fences(s: Seq<Seg>, s2: Seq<Seg>, id0: Seq<char>) -> bool {
    &&& forall|k: int, i: Seq<char>|
        0 <= k < s2.len() && i != id0 && #[trigger] is_fence_with_id(s2[k], i) ==> k < s.len()
            && fence_info(s2[k]) == fence_info(s[k])
    &&& forall|k: int, i: Seq<char>|
        0 <= k < s.len() && i != id0 && #[trigger] is_fence_with_id(s[k], i) ==> k < s2.len()
            && is_fence_with_id(s2[k], i)
}

/// A settled fence stays settled when only another id's fence changes.
proof fn lemma_settled_transfer(
    s: Seq<Seg>,
    s2: Seq<Seg>,
    omits: Seq<Seq<char>>,
    g: FenceSpec,
    id0: Seq<char>,
)
    requires
        settled(s, omits, g),
        g.0 != id0,
        same_other_fences(s, s2, id0),
    ensures
        settled(s2, omits, g),
{
    assert forall|k: int| 0 <= k < s2.len() && #[trigger] is_fence_with_id(s2[k], g.0) implies fence_settled(
        s2[k],
        g,
    ) by {
        assert(k < s.len() && fence_info(s2[k]) == fence_info(s[k]));
        assert(is_fence_with_id(s[k], g.0));
    }
    if forall|k: int| 0 <= k < s2.len() ==> !#[trigger] is_fence_with_id(s2[k], g.0) {
        assert forall|k: int| 0 <= k < s.len() implies !#[trigger] is_fence_with_id(s[k], g.0) by {
            if is_fence_with_id(s[k], g.0) {
                assert(is_fence_with_id(s2[k], g.0));
            }
        }
    }
}

/// The pieces compared with themselves keep every other id's fences.
proof fn lemma_same_other_refl(s: Seq<Seg>, id0: Seq<char>)
    ensures
        same_other_fences(s, s, id0),
{
}

/// Rewriting the managed fence at `k`, the only one with `f`'s id.
#[verifier::spinoff_prover]
#[verifier::rlimit(40)]
proof fn lemma_step_update(segs: Seq<Seg>, omits: Seq<Seq<char>>, f: FenceSpec, k: int)
    requires
        well_formed(segs),
        is_valid_slug(f.0),
        forall|t: int| 0 <= t < f.1.len() ==> fence_line_ok(#[trigger] f.1[t]),
        0 <= k < segs.len(),
        is_fence_with_id(segs[k], f.0),
    ensures
        ({
            let s2 = segs.update(k, managed_fence(f.0, join_lines(f.1)));
            &&& well_formed(s2)
            &&& omit_args(s2) == omit_args(segs)
            &&& settled(s2, omits, f)
            &&& same_other_fences(segs, s2, f.0)
        }),
{
    let id = f.0;
    let m = managed_fence(id, join_lines(f.1));
    let s2 = segs.update(k, m);
    lemma_managed_fence_ok(id, f.1);
    lemma_update_wf(segs, k, m);
    lemma_omit_args_update(segs, k, m);
    assert forall|j: int| 0 <= j < s2.len() && #[trigger] is_fence_with_id(s2[j], id) implies fence_settled(
        s2[j],
        f,
    ) by {
        if j != k {
            assert(s2[j] == segs[j]);
            assert(!is_fence_with_id(segs[j], id));
        }
    }
    assert(is_fence_with_id(s2[k], id));
    assert forall|j: int, i: Seq<char>|
        0 <= j < s2.len() && i != id && #[trigger] is_fence_with_id(s2[j], i) implies j < segs.len()
        && fence_info(s2[j]) == fence_info(segs[j]) by {
        if j == k {
            assert(!is_fence_with_id(s2[j], i));
        }
    }
    assert forall|j: int, i: Seq<char>|
        0 <= j < segs.len() && i != id && #[trigger] is_fence_with_id(segs[j], i) implies j < s2.len()
        && is_fence_with_id(s2[j], i) by {
        if j == k {
            assert(!is_fence_with_id(segs[j], i));
        }
    }
}

/// Appending the fence for `f`, whose id no fence has.
#[verifier::spinoff_prover]
#[verifier::rlimit(40)]
proof fn lemma_step_append(segs: Seq<Seg>, omits: Seq<Seq<char>>, f: FenceSpec)
    requires
        well_formed(segs),
        is_valid_slug(f.0),
        forall|t: int| 0 <= t < f.1.len() ==> fence_line_ok(#[trigger] f.1[t]),
        forall|k: int| 0 <= k < segs.len() ==> !#[trigger] is_fence_with_id(segs[k], f.0),
    ensures
        ({
            let s2 = append_fence(segs, f.0, join_lines(f.1));
            &&& well_formed(s2)
            &&& omit_args(s2) == omit_args(segs)
            &&& settled(s2, omits, f)
            &&& same_other_fences(segs, s2, f.0)
        }),
{
    let id = f.0;
    let s2 = append_fence(segs, id, join_lines(f.1));
    lemma_append_fence_ok(segs, id, f.1);
    assert forall|j: int| 0 <= j < s2.len() && #[trigger] is_fence_with_id(s2[j], id) implies fence_settled(
        s2[j],
        f,
    ) by {
        if j < segs.len() {
            assert(is_fence_with_id(segs[j], id));
        } else if j < s2.len() - 1 {
            assert(!is_fence_with_id(s2[j], id));
        }
    }
    assert(is_fence_with_id(s2[s2.len() - 1], id));
    assert forall|j: int, i: Seq<char>|
        0 <= j < s2.len() && i != id && #[trigger] is_fence_with_id(s2[j], i) implies j < segs.len()
        && fence_info(s2[j]) == fence_info(segs[j]) by {
        if j >= segs.len() && j < s2.len() - 1 {
            assert(!is_fence_with_id(s2[j], i));
        }
    }
}

/// Reconciling one desired fence keeps the pieces well formed and their
/// omit lines, settles that fence, and leaves the other ids' fences alone.
proof fn lemma_step_first(segs: Seq<Seg>, omits: Seq<Seq<char>>, f: FenceSpec)
    requires
        well_formed(segs),
        is_valid_slug(f.0),
        forall|t: int| 0 <= t < f.1.len() ==> fence_line_ok(#[trigger] f.1[t]),
    ensures
        ({
            let s2 = step(segs, omits, f).0;
            &&& well_formed(s2)
            &&& omit_args(s2) == omit_args(segs)
            &&& settled(s2, omits, f)
            &&& same_other_fences(segs, s2, f.0)
        }),
{
    let id = f.0;
    let inner = join_lines(f.1);
    let k = fence_index_from(segs, id, 0);
    lemma_fence_index_from(segs, id, 0);
    lemma_same_other_refl(segs, id);
    if k >= 0 {
        assert(is_fence_with_id(segs[k], id));
        match segs[k] {
            Seg::Fence { kind, inner: cur, .. } => {
                if kind == FenceKind::Overridden || cur == inner {
                    assert forall|j: int| 0 <= j < segs.len() && #[trigger] is_fence_with_id(segs[j], id) implies fence_settled(
                        segs[j],
                        f,
                    ) by {
                        if j != k {
                            assert(!is_fence_with_id(segs[j], id));
                        }
                    }
                } else {
                    lemma_step_update(segs, omits, f, k);
                }
            },
            Seg::Text(_) => {},
        }
    } else if omits.contains(id) {
    } else {
        lemma_step_append(segs, omits, f);
    }
}

/// The first `n` desired fences of valid desired fences are valid.
proof fn lemma_desired_ok_front(fs: Seq<FenceSpec>)
    requires
        desired_ok(fs),
        fs.len() > 0,
    ensures
        desired_ok(fs.drop_last()),
{
    let front = fs.drop_last();
    assert forall|i: int| 0 <= i < front.len() implies is_valid_slug(#[trigger] front[i].0) by {
        assert(front[i] == fs[i]);
    }
    assert forall|i: int, t: int| 0 <= i < front.len() && 0 <= t < front[i].1.len() implies fence_line_ok(
        #[trigger] front[i].1[t],
    ) by {
        assert(front[i] == fs[i]);
    }
    assert forall|i: int, j: int| 0 <= i < j < front.len() implies #[trigger] front[i].0
        != #[trigger] front[j].0 by {
        assert(front[i] == fs[i]);
        assert(front[j] == fs[j]);
    }
}

/// Reconciling valid desired fences keeps the pieces well formed and their
/// omit lines, and settles every desired fence.
proof fn lemma_apply_first(segs: Seq<Seg>, omits: Seq<Seq<char>>, fs: Seq<FenceSpec>)
    requires
        well_formed(segs),
        desired_ok(fs),
    ensures
        well_formed(apply_desired(segs, omits, fs).0),
        omit_args(apply_desired(segs, omits, fs).0) == omit_args(segs),
        forall|t: int| 0 <= t < fs.len() ==> settled(apply_desired(segs, omits, fs).0, omits, #[trigger] fs[t]),
    decreases fs.len(),
{
    if fs.len() > 0 {
        let front = fs.drop_last();
        let f = fs.last();
        lemma_desired_ok_front(fs);
        lemma_apply_first(segs, omits, front);
        let s1 = apply_desired(segs, omits, front).0;
        assert(is_valid_slug(fs[fs.len() - 1].0));
        assert forall|t: int| 0 <= t < f.1.len() implies fence_line_ok(#[trigger] f.1[t]) by {
            assert(fence_line_ok(fs[fs.len() - 1].1[t]));
        }
        lemma_step_first(s1, omits, f);
        let s2 = step(s1, omits, f).0;
        assert(apply_desired(segs, omits, fs).0 == s2);
        assert forall|t: int| 0 <= t < fs.len() implies settled(s2, omits, #[trigger] fs[t]) by {
            if t < fs.len() - 1 {
                assert(fs[t] == front[t]);
                assert(settled(s1, omits, front[t]));
                assert(fs[t].0 != fs[fs.len() - 1].0);
                lemma_settled_transfer(s1, s2, omits, fs[t], f.0);
            }
        }
    }
}

/// `s` is no managed fence with an id that is not desired.
pub open spec fn not_stale(s: Seg, fs: Seq<FenceSpec>) -> bool {
    match s {
        Seg::Fence { kind: FenceKind::Managed, id, .. } => index_of_id(fs, id) >= 0,
        _ => true,
    }
}

/// No managed fence with an id that is not desired.
pub open spec fn stale_free(segs: Seq<Seg>, fs: Seq<FenceSpec>) -> bool {
    forall|k: int| 0 <= k < segs.len() ==> not_stale(#[trigger] segs[k], fs)
}

/// A piece the user owns: a line outside the fences, or an overridden fence.
pub open spec fn user_piece(s: Seg) -> bool {
    match s {
        Seg::Text(_) => true,
        Seg::Fence { kind, .. } => kind == FenceKind::Overridden,
    }
}

/// Removing the stale managed fences keeps the pieces well formed and their
/// omit lines; what is left holds only pieces that were there, among them
/// every fence with a desired id, and no stale managed fence.
#[verifier::spinoff_prover]
#[verifier::rlimit(40)]
proof fn lemma_remove_first(segs: Seq<Seg>, fs: Seq<FenceSpec>)
    requires
        well_formed(segs),
    ensures
        ({
            let kept = remove_stale(segs, fs).0;
            &&& well_formed(kept)
            &&& omit_args(kept) == omit_args(segs)
            &&& stale_free(kept, fs)
            &&& forall|k: int| 0 <= k < kept.len() ==> segs.contains(#[trigger] kept[k])
            &&& forall|j: int, id: Seq<char>|
                0 <= j < segs.len() && #[trigger] is_fence_with_id(segs[j], id) && index_of_id(fs, id)
                    >= 0 ==> kept.contains(segs[j])
            &&& forall|j: int| 0 <= j < segs.len() && #[trigger] user_piece(segs[j]) ==> kept.contains(
                segs[j],
            )
        }),
    decreases segs.len(),
{
    if segs.len() > 0 {
        let front = segs.drop_last();
        let x = segs.last();
        lemma_well_formed_front(segs);
        lemma_remove_first(front, fs);
        let k0 = remove_stale(front, fs).0;
        let kept = remove_stale(segs, fs).0;
        assert(segs =~= front.push(x));
        let dropped = match x {
            Seg::Fence { kind: FenceKind::Managed, id, .. } => index_of_id(fs, id) < 0,
            _ => false,
        };
        assert forall|k: int| 0 <= k < k0.len() implies segs.contains(#[trigger] k0[k]) by {
            assert(front.contains(k0[k]));
            let j = choose|j: int| 0 <= j < front.len() && front[j] == k0[k];
            assert(segs[j] == front[j]);
        }
        if dropped {
            assert(kept == k0);
            assert forall|j: int, id: Seq<char>|
                0 <= j < segs.len() && #[trigger] is_fence_with_id(segs[j], id) && index_of_id(fs, id)
                    >= 0 implies kept.contains(segs[j]) by {
                if j < front.len() {
                    assert(segs[j] == front[j]);
                } else {
                    assert(segs[j] == x);
                }
            }
            assert forall|j: int| 0 <= j < segs.len() && #[trigger] user_piece(segs[j]) implies kept.contains(
                segs[j],
            ) by {
                if j < front.len() {
                    assert(segs[j] == front[j]);
                    assert(user_piece(front[j]));
                } else {
                    assert(segs[j] == x);
                }
            }
        } else {
            assert(kept == k0.push(x));
            assert(seg_ok(segs[segs.len() - 1]));
            // Every piece kept so far comes from `front`: terminated, and
            // with an id other than `x`'s.
            assert forall|k: int| 0 <= k < k0.len() implies exists|j: int|
                0 <= j < front.len() && front[j] == #[trigger] k0[k] by {
                assert(front.contains(k0[k]));
            }
            if k0.len() > 0 {
                let j = choose|j: int| 0 <= j < front.len() && front[j] == k0[k0.len() - 1];
                assert(segs[j] == front[j]);
                assert(ends_in_newline(seg_raw(segs[j])));
            }
            assert forall|id: Seq<char>| is_fence_with_id(x, id) implies !has_fence_id(k0, id) by {
                if has_fence_id(k0, id) {
                    let k = choose|k: int| 0 <= k < k0.len() && is_fence_with_id(#[trigger] k0[k], id);
                    let j = choose|j: int| 0 <= j < front.len() && front[j] == k0[k];
                    assert(segs[j] == front[j]);
                    assert(is_fence_with_id(segs[segs.len() - 1], id));
                }
            }
            lemma_push_wf(k0, x);
            assert(kept.drop_last() =~= k0);
            assert forall|k: int| 0 <= k < kept.len() implies segs.contains(#[trigger] kept[k]) by {
                if k < k0.len() {
                    assert(kept[k] == k0[k]);
                } else {
                    assert(segs[segs.len() - 1] == x);
                }
            }
            assert forall|j: int, id: Seq<char>|
                0 <= j < segs.len() && #[trigger] is_fence_with_id(segs[j], id) && index_of_id(fs, id)
                    >= 0 implies kept.contains(segs[j]) by {
                if j < front.len() {
                    assert(segs[j] == front[j]);
                    assert(k0.contains(front[j]));
                    let k = choose|k: int| 0 <= k < k0.len() && k0[k] == front[j];
                    assert(kept[k] == k0[k]);
                } else {
                    assert(kept[kept.len() - 1] == x);
                }
            }
            assert forall|k: int| 0 <= k < kept.len() implies not_stale(#[trigger] kept[k], fs) by {
                if k < k0.len() {
                    assert(kept[k] == k0[k]);
                }
            }
            assert forall|j: int| 0 <= j < segs.len() && #[trigger] user_piece(segs[j]) implies kept.contains(
                segs[j],
            ) by {
                if j < front.len() {
                    assert(segs[j] == front[j]);
                    assert(user_piece(front[j]));
                    assert(k0.contains(front[j]));
                    let k = choose|k: int| 0 <= k < k0.len() && k0[k] == front[j];
                    assert(kept[k] == k0[k]);
                } else {
                    assert(kept[kept.len() - 1] == x);
                }
            }
        }
    }
}

/// A settled desired fence stays settled when the stale fences go.
proof fn lemma_settled_after_remove(
    segs: Seq<Seg>,
    kept: Seq<Seg>,
    omits: Seq<Seq<char>>,
    fs: Seq<FenceSpec>,
    g: FenceSpec,
)
    requires
        settled(segs, omits, g),
        index_of_id(fs, g.0) >= 0,
        forall|k: int| 0 <= k < kept.len() ==> segs.contains(#[trigger] kept[k]),
        forall|j: int, id: Seq<char>|
            0 <= j < segs.len() && #[trigger] is_fence_with_id(segs[j], id) && index_of_id(fs, id) >= 0
                ==> kept.contains(segs[j]),
    ensures
        settled(kept, omits, g),
{
    assert forall|k: int| 0 <= k < kept.len() && #[trigger] is_fence_with_id(kept[k], g.0) implies fence_settled(
        kept[k],
        g,
    ) by {
        assert(segs.contains(kept[k]));
        let j = choose|j: int| 0 <= j < segs.len() && segs[j] == kept[k];
        assert(is_fence_with_id(segs[j], g.0));
    }
    if forall|k: int| 0 <= k < kept.len() ==> !#[trigger] is_fence_with_id(kept[k], g.0) {
        assert forall|j: int| 0 <= j < segs.len() implies !#[trigger] is_fence_with_id(segs[j], g.0) by {
            if is_fence_with_id(segs[j], g.0) {
                assert(kept.contains(segs[j]));
                let k = choose|k: int| 0 <= k < kept.len() && kept[k] == segs[j];
                assert(is_fence_with_id(kept[k], g.0));
            }
        }
    }
}

/// An action that changes nothing in the file.
pub open spec fn quiet(a: Action) -> bool {
    a is InSync || a is Overridden || a is Omitted
}

/// Reconciling settled desired fences changes nothing and reports only
/// quiet actions, one per fence.
proof fn lemma_apply_second(segs: Seq<Seg>, omits: Seq<Seq<char>>, fs: Seq<FenceSpec>)
    requires
        forall|t: int| 0 <= t < fs.len() ==> settled(segs, omits, #[trigger] fs[t]),
    ensures
        apply_desired(segs, omits, fs).0 == segs,
        apply_desired(segs, omits, fs).1.len() == fs.len(),
        forall|k: int| 0 <= k < fs.len() ==> quiet(#[trigger] apply_desired(segs, omits, fs).1[k]),
    decreases fs.len(),
{
    if fs.len() > 0 {
        let front = fs.drop_last();
        let f = fs.last();
        assert forall|t: int| 0 <= t < front.len() implies settled(segs, omits, #[trigger] front[t]) by {
            assert(front[t] == fs[t]);
        }
        lemma_apply_second(segs, omits, front);
        assert(settled(segs, omits, fs[fs.len() - 1]));
        let id = f.0;
        let k = fence_index_from(segs, id, 0);
        lemma_fence_index_from(segs, id, 0);
        let (s2, a) = step(segs, omits, f);
        if k >= 0 {
            assert(is_fence_with_id(segs[k], id));
            assert(fence_settled(segs[k], f));
        }
        assert(s2 == segs);
        assert(quiet(a));
        let acts = apply_desired(segs, omits, fs).1;
        assert(acts == apply_desired(segs, omits, front).1.push(a));
        assert forall|j: int| 0 <= j < fs.len() implies quiet(#[trigger] acts[j]) by {
            if j < front.len() {
                assert(acts[j] == apply_desired(segs, omits, front).1[j]);
            }
        }
    }
}

/// Without stale managed fences, removing them changes nothing; it only
/// reports the overridden fences no longer desired.
proof fn lemma_remove_second(segs: Seq<Seg>, fs: Seq<FenceSpec>)
    requires
        stale_free(segs, fs),
    ensures
        remove_stale(segs, fs).0 == segs,
        forall|k: int|
            0 <= k < remove_stale(segs, fs).1.len() ==> #[trigger] remove_stale(segs, fs).1[k] is Overridden,
    decreases segs.len(),
{
    if segs.len() > 0 {
        let front = segs.drop_last();
        assert forall|k: int| 0 <= k < front.len() implies not_stale(#[trigger] front[k], fs) by {
            assert(front[k] == segs[k]);
        }
        lemma_remove_second(front, fs);
        assert(not_stale(segs[segs.len() - 1], fs));
        assert(front.push(segs.last()) =~= segs);
        let a0 = remove_stale(front, fs).1;
        let a = remove_stale(segs, fs).1;
        assert forall|k: int| 0 <= k < a.len() implies #[trigger] a[k] is Overridden by {
            if k < a0.len() {
                assert(a[k] == a0[k]);
            }
        }
    }
}

/// Every action reported for a stale omit is `Omitted`.
proof fn lemma_omit_actions(omits: Seq<Seq<char>>, fs: Seq<FenceSpec>)
    ensures
        forall|k: int| 0 <= k < omit_actions(omits, fs).len() ==> #[trigger] omit_actions(omits, fs)[k] is Omitted,
    decreases omits.len(),
{
    if omits.len() > 0 {
        lemma_omit_actions(omits.drop_last(), fs);
        let a0 = omit_actions(omits.drop_last(), fs);
        let a = omit_actions(omits, fs);
        assert forall|k: int| 0 <= k < a.len() implies #[trigger] a[k] is Omitted by {
            if k < a0.len() {
                assert(a[k] == a0[k]);
            }
        }
    }
}

/// Applying the desired fences to the file an apply wrote changes nothing:
/// the contents come out the same, every action reported is in sync,
/// overridden or omitted (one for each desired fence, then the overridden
/// fences and stale omits no longer desired), and the warnings are the
/// same.
#[verifier::spinoff_prover]
#[verifier::rlimit(40)]
pub proof fn law_apply_idempotent(fs: Seq<FenceSpec>, existing: Option<Seq<char>>)
    requires
        plan_gitignore(fs, existing) is Ok,
        plan_gitignore(fs, existing)->Ok_0.contents is Some,
    ensures
        ({
            let first = plan_gitignore(fs, existing)->Ok_0;
            let second = plan_gitignore(fs, first.contents);
            &&& second is Ok
            &&& second->Ok_0.contents == first.contents
            &&& second->Ok_0.warnings == first.warnings
            &&& second->Ok_0.actions.len() >= fs.len()
            &&& forall|k: int|
                0 <= k < second->Ok_0.actions.len() ==> quiet(#[trigger] second->Ok_0.actions[k])
        }),
{
    law_planned_fences_ok(fs, existing);
    let content = match existing {
        Some(c) => c,
        None => Seq::<char>::empty(),
    };
    lemma_parse_well_formed(content);
    let segs0 = parse_segments(content)->Ok_0;
    let omits = omit_args(segs0);
    lemma_apply_first(segs0, omits, fs);
    let s1 = apply_desired(segs0, omits, fs).0;
    lemma_remove_first(s1, fs);
    let s2 = remove_stale(s1, fs).0;
    assert forall|t: int| 0 <= t < fs.len() implies settled(s2, omits, #[trigger] fs[t]) by {
        lemma_index_of_id_from(fs, fs[t].0, 0);
        assert(settled(s1, omits, fs[t]));
        lemma_settled_after_remove(s1, s2, omits, fs, fs[t]);
    }
    let first = plan_gitignore(fs, existing)->Ok_0;
    assert(first.contents == Some(render(s2)));
    lemma_parse_render(s2);
    lemma_apply_second(s2, omits, fs);
    lemma_remove_second(s2, fs);
    let acts = apply_desired(s2, omits, fs).1;
    let second = plan_gitignore(fs, first.contents)->Ok_0;
    let rs = remove_stale(s2, fs).1;
    let oa = omit_actions(omit_args(s2), fs);
    lemma_omit_actions(omit_args(s2), fs);
    assert(second.actions == acts + rs + oa);
    assert forall|k: int| 0 <= k < second.actions.len() implies quiet(#[trigger] second.actions[k]) by {
        if k < acts.len() {
            assert(second.actions[k] == acts[k]);
        } else if k < acts.len() + rs.len() {
            assert(second.actions[k] == rs[k - acts.len()]);
        } else {
            assert(second.actions[k] == oa[k - acts.len() - rs.len()]);
        }
    }
}

/// Adding the missing lines keeps every line there was and adds every new
/// one, and nothing else.
#[verifier::spinoff_prover]
#[verifier::rlimit(40)]
pub proof fn lemma_add_missing(a: Seq<Seq<char>>, b: Seq<Seq<char>>)
    ensures
        forall|x: Seq<char>| a.contains(x) ==> #[trigger] add_missing(a, b).contains(x),
        forall|x: Seq<char>| b.contains(x) ==> #[trigger] add_missing(a, b).contains(x),
        forall|x: Seq<char>| #[trigger] add_missing(a, b).contains(x) ==> a.contains(x) || b.contains(x),
    decreases b.len(),
{
    if b.len() > 0 {
        let front = b.drop_last();
        lemma_add_missing(a, front);
        let before = add_missing(a, front);
        let after = add_missing(a, b);
        assert forall|x: Seq<char>| a.contains(x) implies #[trigger] after.contains(x) by {
            assert(before.contains(x));
            let k = choose|k: int| 0 <= k < before.len() && before[k] == x;
            assert(after[k] == before[k]);
        }
        assert forall|x: Seq<char>| b.contains(x) implies #[trigger] after.contains(x) by {
            let k = choose|k: int| 0 <= k < b.len() && b[k] == x;
            if k < front.len() {
                assert(front[k] == x);
                assert(before.contains(x));
                let j = choose|j: int| 0 <= j < before.len() && before[j] == x;
                assert(after[j] == before[j]);
            } else if before.contains(x) {
                let j = choose|j: int| 0 <= j < before.len() && before[j] == x;
                assert(after[j] == before[j]);
            } else {
                assert(after[after.len() - 1] == x);
            }
        }
        assert forall|x: Seq<char>| #[trigger] after.contains(x) implies a.contains(x) || b.contains(x) by {
            let k = choose|k: int| 0 <= k < after.len() && after[k] == x;
            if k < before.len() {
                assert(before[k] == after[k]);
                assert(before.contains(x));
                if front.contains(x) {
                    let j = choose|j: int| 0 <= j < front.len() && front[j] == x;
                    assert(b[j] == front[j]);
                }
            } else {
                assert(b[b.len() - 1] == x);
            }
        }
    }
}

/// The merged fences `fs` have distinct ids, which are exactly the
/// contributed ids of `cs`.
pub open spec fn merged_ids(cs: Seq<FenceSpec>, fs: Seq<FenceSpec>) -> bool {
    &&& forall|i: int, j: int| 0 <= i < j < fs.len() ==> #[trigger] fs[i].0 != #[trigger] fs[j].0
    &&& forall|i: int| 0 <= i < fs.len() ==> exists|t: int|
        0 <= t < cs.len() && #[trigger] cs[t].0 == #[trigger] fs[i].0
}

/// Some fence of `fs` with id `id` holds `l`.
pub open spec fn line_in_fence(fs: Seq<FenceSpec>, id: Seq<char>, l: Seq<char>) -> bool {
    exists|i: int| 0 <= i < fs.len() && fs[i].0 == id && #[trigger] fs[i].1.contains(l)
}

/// Every line contributed in `cs` is in the fence of its id in `fs`.
pub open spec fn merged_covers(cs: Seq<FenceSpec>, fs: Seq<FenceSpec>) -> bool {
    forall|t: int, u: int|
        0 <= t < cs.len() && 0 <= u < cs[t].1.len() ==> line_in_fence(fs, cs[t].0, #[trigger] cs[t].1[u])
}

/// Every line of a fence in `fs` was contributed in `cs` with its id.
pub open spec fn merged_from(cs: Seq<FenceSpec>, fs: Seq<FenceSpec>) -> bool {
    forall|i: int, u: int|
        0 <= i < fs.len() && 0 <= u < fs[i].1.len() ==> line_in_fence(cs, fs[i].0, #[trigger] fs[i].1[u])
}

/// Every contributed id, even one that brings no lines, has a fence in
/// `fs`.
pub open spec fn merged_has_ids(cs: Seq<FenceSpec>, fs: Seq<FenceSpec>) -> bool {
    forall|t: int| 0 <= t < cs.len() ==> exists|i: int| 0 <= i < fs.len() && #[trigger] fs[i].0 == #[trigger] cs[t].0
}

/// Merging keeps a fence for every contributed id.
proof fn lemma_merge_has_ids(cs: Seq<FenceSpec>)
    ensures
        merged_has_ids(cs, merge_all(cs)),
    decreases cs.len(),
{
    if cs.len() > 0 {
        let front = cs.drop_last();
        let c = cs.last();
        lemma_merge_has_ids(front);
        let f0 = merge_all(front);
        let fs = merge_all(cs);
        assert(fs == super::merge_one(f0, c));
        lemma_index_of_id_from(f0, c.0, 0);
        let k = super::index_of_id(f0, c.0);
        assert forall|t: int| 0 <= t < cs.len() implies exists|i: int|
            0 <= i < fs.len() && #[trigger] fs[i].0 == #[trigger] cs[t].0 by {
            if t < front.len() {
                assert(front[t] == cs[t]);
                let i = choose|i: int| 0 <= i < f0.len() && #[trigger] f0[i].0 == front[t].0;
                if k >= 0 && i == k {
                    assert(fs[k].0 == c.0);
                } else if k >= 0 {
                    assert(fs[i] == f0[i]);
                } else {
                    assert(fs[i] == f0[i]);
                }
            } else if k >= 0 {
                assert(fs[k].0 == cs[t].0);
            } else {
                assert(fs[f0.len() as int].0 == cs[t].0);
            }
        }
    }
}

/// The merged fences: distinct contributed ids, every line in the fence of
/// its id, and only contributed lines.
#[verifier::spinoff_prover]
#[verifier::rlimit(40)]
proof fn lemma_merge_fences(cs: Seq<FenceSpec>)
    ensures
        merged_ids(cs, merge_all(cs)),
        merged_covers(cs, merge_all(cs)),
        merged_from(cs, merge_all(cs)),
    decreases cs.len(),
{
    if cs.len() > 0 {
        let front = cs.drop_last();
        let c = cs.last();
        lemma_merge_fences(front);
        let f0 = merge_all(front);
        let fs = merge_all(cs);
        assert(fs == merge_one(f0, c));
        lemma_index_of_id_from(f0, c.0, 0);
        let k = super::index_of_id(f0, c.0);
        assert forall|t: int| 0 <= t < front.len() implies #[trigger] front[t] == cs[t] by {}
        assert(cs[cs.len() - 1] == c);
        if k >= 0 {
            lemma_add_missing(f0[k].1, c.1);
            assert(fs[k].0 == f0[k].0);
            assert forall|i: int| 0 <= i < fs.len() && i != k implies #[trigger] fs[i] == f0[i] by {}
        } else {
            assert(fs == f0.push(c));
            assert forall|i: int| 0 <= i < f0.len() implies #[trigger] fs[i] == f0[i] by {}
            assert(fs[f0.len() as int] == c);
        }
        // Distinct ids, each contributed.
        assert forall|i: int, j: int| 0 <= i < j < fs.len() implies #[trigger] fs[i].0 != #[trigger] fs[j].0 by {
            if j < f0.len() {
                assert(f0[i].0 != f0[j].0);
            }
        }
        assert forall|i: int| 0 <= i < fs.len() implies exists|t: int|
            0 <= t < cs.len() && #[trigger] cs[t].0 == #[trigger] fs[i].0 by {
            if i < f0.len() {
                let t = choose|t: int| 0 <= t < front.len() && #[trigger] front[t].0 == f0[i].0;
                assert(cs[t].0 == fs[i].0);
            } else {
                assert(cs[cs.len() - 1].0 == fs[i].0);
            }
        }
        // Every contributed line is in its fence.
        assert forall|t: int, u: int| 0 <= t < cs.len() && 0 <= u < cs[t].1.len() implies line_in_fence(
            fs,
            cs[t].0,
            #[trigger] cs[t].1[u],
        ) by {
            let x = cs[t].1[u];
            if t < front.len() {
                assert(front[t].1[u] == x);
                assert(line_in_fence(f0, front[t].0, front[t].1[u]));
                let i = choose|i: int|
                    0 <= i < f0.len() && f0[i].0 == front[t].0 && #[trigger] f0[i].1.contains(x);
                assert(fs[i].1.contains(x));
            } else {
                assert(c.1[u] == x);
                assert(c.1.contains(x));
                if k >= 0 {
                    assert(fs[k].1.contains(x));
                } else {
                    assert(fs[f0.len() as int].1.contains(x));
                }
            }
        }
        // Every fence line was contributed with its id.
        assert forall|i: int, u: int| 0 <= i < fs.len() && 0 <= u < fs[i].1.len() implies line_in_fence(
            cs,
            fs[i].0,
            #[trigger] fs[i].1[u],
        ) by {
            let x = fs[i].1[u];
            assert(fs[i].1.contains(x));
            if (k >= 0 && i == k && f0[k].1.contains(x)) || (i < f0.len() && i != k) {
                let v = choose|v: int| 0 <= v < f0[i].1.len() && f0[i].1[v] == x;
                assert(line_in_fence(front, f0[i].0, f0[i].1[v]));
                let t = choose|t: int|
                    0 <= t < front.len() && front[t].0 == f0[i].0 && #[trigger] front[t].1.contains(x);
                assert(cs[t].1.contains(x));
            } else {
                assert(cs[cs.len() - 1].1.contains(x));
            }
        }
    }
}

/// Merging gitignore contributions unions their lines per fence id: the
/// merged fences have distinct ids, which are exactly the contributed ids
/// (every contributed id, also one that brings no lines, has its fence);
/// every contributed line is in the fence of its id; and every line of a
/// fence was contributed with that id.
pub proof fn law_merge_fences(cs: Seq<FenceSpec>)
    ensures
        merged_ids(cs, merge_all(cs)),
        merged_covers(cs, merge_all(cs)),
        merged_from(cs, merge_all(cs)),
        merged_has_ids(cs, merge_all(cs)),
{
    lemma_merge_fences(cs);
    lemma_merge_has_ids(cs);
}

/// Some fence of `fs` has id `id`.
pub open spec fn has_fence(fs: Seq<FenceSpec>, id: Seq<char>) -> bool {
    exists|i: int| 0 <= i < fs.len() && #[trigger] fs[i].0 == id
}

/// The merged fences have the ids that were contributed, and hold in the
/// fence of each id the lines contributed with it.
proof fn lemma_merge_same_content(cs: Seq<FenceSpec>)
    ensures
        forall|id: Seq<char>| #[trigger] has_fence(merge_all(cs), id) == has_fence(cs, id),
        forall|id: Seq<char>, l: Seq<char>| #[trigger] line_in_fence(merge_all(cs), id, l) == line_in_fence(cs, id, l),
{
    let fs = merge_all(cs);
    law_merge_fences(cs);
    assert forall|id: Seq<char>| #[trigger] has_fence(fs, id) == has_fence(cs, id) by {
        if has_fence(fs, id) {
            let i = choose|i: int| 0 <= i < fs.len() && #[trigger] fs[i].0 == id;
            let t = choose|t: int| 0 <= t < cs.len() && #[trigger] cs[t].0 == #[trigger] fs[i].0;
            assert(cs[t].0 == id);
        }
        if has_fence(cs, id) {
            let t = choose|t: int| 0 <= t < cs.len() && #[trigger] cs[t].0 == id;
            let i = choose|i: int| 0 <= i < fs.len() && #[trigger] fs[i].0 == #[trigger] cs[t].0;
            assert(fs[i].0 == id);
        }
    }
    assert forall|id: Seq<char>, l: Seq<char>| #[trigger] line_in_fence(fs, id, l) == line_in_fence(cs, id, l) by {
        if line_in_fence(fs, id, l) {
            let i = choose|i: int| 0 <= i < fs.len() && fs[i].0 == id && #[trigger] fs[i].1.contains(l);
            let u = choose|u: int| 0 <= u < fs[i].1.len() && fs[i].1[u] == l;
            assert(line_in_fence(cs, fs[i].0, fs[i].1[u]));
        }
        if line_in_fence(cs, id, l) {
            let t = choose|t: int| 0 <= t < cs.len() && cs[t].0 == id && #[trigger] cs[t].1.contains(l);
            let u = choose|u: int| 0 <= u < cs[t].1.len() && cs[t].1[u] == l;
            assert(line_in_fence(fs, cs[t].0, cs[t].1[u]));
        }
    }
}

/// Contributions holding the same items, each as often, have the same ids
/// and the same lines per id.
proof fn lemma_same_items(cs1: Seq<FenceSpec>, cs2: Seq<FenceSpec>)
    requires
        cs1.to_multiset() == cs2.to_multiset(),
    ensures
        forall|id: Seq<char>| #[trigger] has_fence(cs1, id) ==> has_fence(cs2, id),
        forall|id: Seq<char>, l: Seq<char>| #[trigger] line_in_fence(cs1, id, l) ==> line_in_fence(cs2, id, l),
{
    broadcast use vstd::seq_lib::group_to_multiset_ensures;
    assert forall|id: Seq<char>| #[trigger] has_fence(cs1, id) implies has_fence(cs2, id) by {
        let t = choose|t: int| 0 <= t < cs1.len() && #[trigger] cs1[t].0 == id;
        assert(cs1.contains(cs1[t]));
        assert(cs1.to_multiset().count(cs1[t]) > 0);
        assert(cs2.contains(cs1[t]));
        let t2 = choose|t2: int| 0 <= t2 < cs2.len() && cs2[t2] == cs1[t];
        assert(cs2[t2].0 == id);
    }
    assert forall|id: Seq<char>, l: Seq<char>| #[trigger] line_in_fence(cs1, id, l) implies line_in_fence(
        cs2,
        id,
        l,
    ) by {
        let t = choose|t: int| 0 <= t < cs1.len() && cs1[t].0 == id && #[trigger] cs1[t].1.contains(l);
        assert(cs1.contains(cs1[t]));
        assert(cs1.to_multiset().count(cs1[t]) > 0);
        assert(cs2.contains(cs1[t]));
        let t2 = choose|t2: int| 0 <= t2 < cs2.len() && cs2[t2] == cs1[t];
        assert(cs2[t2].1.contains(l));
    }
}

/// The merge does not depend on the order of the contributions: two lists
/// of contributions that are permutations of each other merge into fences
/// with the same ids, and in the fence of each id the same lines; only the
/// order of the fences and of their lines may differ.
pub proof fn law_merge_permutation(cs1: Seq<FenceSpec>, cs2: Seq<FenceSpec>)
    requires
        cs1.to_multiset() == cs2.to_multiset(),
    ensures
        forall|id: Seq<char>| #[trigger] has_fence(merge_all(cs1), id) == has_fence(merge_all(cs2), id),
        forall|id: Seq<char>, l: Seq<char>|
            #[trigger] line_in_fence(merge_all(cs1), id, l) == line_in_fence(merge_all(cs2), id, l),
{
    lemma_merge_same_content(cs1);
    lemma_merge_same_content(cs2);
    lemma_same_items(cs1, cs2);
    lemma_same_items(cs2, cs1);
    assert forall|id: Seq<char>| #[trigger] has_fence(merge_all(cs1), id) == has_fence(merge_all(cs2), id) by {
        assert(has_fence(merge_all(cs1), id) == has_fence(cs1, id));
        assert(has_fence(merge_all(cs2), id) == has_fence(cs2, id));
    }
    assert forall|id: Seq<char>, l: Seq<char>|
        #[trigger] line_in_fence(merge_all(cs1), id, l) == line_in_fence(merge_all(cs2), id, l) by {
        assert(line_in_fence(merge_all(cs1), id, l) == line_in_fence(cs1, id, l));
        assert(line_in_fence(merge_all(cs2), id, l) == line_in_fence(cs2, id, l));
    }
}

/// With nothing desired, a `.gitignore` holding no yard-managed fence is
/// left exactly as it is; the only actions report its overridden fences
/// and its stale omits.
pub proof fn law_nothing_desired_keeps_user_file(content: Seq<char>)
    requires
        parse_segments(content) is Ok,
        stale_free(parse_segments(content)->Ok_0, seq![]),
    ensures
        plan_gitignore(seq![], Some(content)) is Ok,
        plan_gitignore(seq![], Some(content))->Ok_0.contents == Some(content),
        forall|k: int|
            0 <= k < plan_gitignore(seq![], Some(content))->Ok_0.actions.len() ==> (#[trigger] plan_gitignore(
                seq![],
                Some(content),
            )->Ok_0.actions[k] is Overridden || plan_gitignore(seq![], Some(content))->Ok_0.actions[k] is Omitted),
{
    let segs = parse_segments(content)->Ok_0;
    lemma_parse_well_formed(content);
    lemma_remove_second(segs, seq![]);
    let omits = omit_args(segs);
    lemma_omit_actions(omits, seq![]);
    assert(apply_desired(segs, omits, seq![]) == (segs, Seq::<Action>::empty()));
    let rs = remove_stale(segs, seq![]).1;
    let oa = omit_actions(omits, seq![]);
    let acts = plan_gitignore(seq![], Some(content))->Ok_0.actions;
    assert(acts == Seq::<Action>::empty() + rs + oa);
    assert forall|k: int| 0 <= k < acts.len() implies (#[trigger] acts[k] is Overridden || acts[k] is Omitted) by {
        if k < rs.len() {
            assert(acts[k] == rs[k]);
        } else {
            assert(acts[k] == oa[k - rs.len()]);
        }
    }
}

/// What reconciling one desired fence does to the pieces already there:
/// each stays, is not the user's, or is the unterminated last piece, which
/// gains a newline.
proof fn lemma_step_user(segs: Seq<Seg>, omits: Seq<Seq<char>>, f: FenceSpec)
    ensures
        ({
            let s2 = step(segs, omits, f).0;
            &&& s2.len() >= segs.len()
            &&& forall|k: int| 0 <= k < segs.len() ==> #[trigger] s2[k] == segs[k] || !user_piece(segs[k]) || (
                k == segs.len() - 1 && !ends_in_newline(seg_raw(segs[k])) && s2[k] == with_newline(segs[k]))
        }),
{
    let id = f.0;
    let inner = join_lines(f.1);
    let k0 = fence_index_from(segs, id, 0);
    lemma_fence_index_from(segs, id, 0);
    let s2 = step(segs, omits, f).0;
    if k0 >= 0 {
        match segs[k0] {
            Seg::Fence { kind, inner: cur, .. } => {
                if !(kind == FenceKind::Overridden || cur == inner) {
                    assert(s2 == segs.update(k0, managed_fence(id, inner)));
                    assert(!user_piece(segs[k0]));
                }
            },
            Seg::Text(_) => {},
        }
    } else if !omits.contains(id) && segs.len() > 0 {
        let n = segs.len() as int;
        let fixed = if ends_in_newline(seg_raw(segs.last())) {
            segs
        } else {
            segs.update(n - 1, with_newline(segs.last()))
        };
        assert(s2 == fixed.push(Seg::Text(seq!['\n'])).push(managed_fence(id, inner)));
        assert forall|k: int| 0 <= k < segs.len() implies #[trigger] s2[k] == fixed[k] by {}
    }
}

/// A piece with a newline added is owned as the piece was, and terminated.
proof fn lemma_with_newline_user(s: Seg)
    ensures
        user_piece(with_newline(s)) == user_piece(s),
        ends_in_newline(seg_raw(with_newline(s))),
{
}

/// Reconciling the desired fences keeps every piece the user owns in its
/// place, the unterminated last one gaining at most a newline.
proof fn lemma_apply_user(segs: Seq<Seg>, omits: Seq<Seq<char>>, fs: Seq<FenceSpec>)
    ensures
        ({
            let s = apply_desired(segs, omits, fs).0;
            forall|k: int| 0 <= k < segs.len() && #[trigger] user_piece(segs[k]) ==> k < s.len() && (s[k]
                == segs[k] || s[k] == with_newline(segs[k]))
        }),
    decreases fs.len(),
{
    if fs.len() > 0 {
        let front = fs.drop_last();
        lemma_apply_user(segs, omits, front);
        let s1 = apply_desired(segs, omits, front).0;
        lemma_step_user(s1, omits, fs.last());
        let s2 = apply_desired(segs, omits, fs).0;
        assert(s2 == step(s1, omits, fs.last()).0);
        assert forall|k: int| 0 <= k < segs.len() && #[trigger] user_piece(segs[k]) implies k < s2.len()
            && (s2[k] == segs[k] || s2[k] == with_newline(segs[k])) by {
            lemma_with_newline_user(segs[k]);
            assert(s1[k] == segs[k] || s1[k] == with_newline(segs[k]));
            assert(user_piece(s1[k]));
        }
    }
}

/// How many of the first `n` pieces removal keeps.
pub open spec fn kept_count(segs: Seq<Seg>, fs: Seq<FenceSpec>, n: int) -> int
    decreases n,
{
    if n <= 0 {
        0
    } else {
        kept_count(segs, fs, n - 1) + if not_stale(segs[n - 1], fs) {
            1int
        } else {
            0int
        }
    }
}

/// Removal keeps each piece it does not drop at the place given by
/// [`kept_count`], in order.
proof fn lemma_remove_positions(segs: Seq<Seg>, fs: Seq<FenceSpec>)
    ensures
        remove_stale(segs, fs).0.len() == kept_count(segs, fs, segs.len() as int),
        forall|j: int| 0 <= j < segs.len() && not_stale(segs[j], fs) ==> #[trigger] remove_stale(
            segs,
            fs,
        ).0[kept_count(segs, fs, j)] == segs[j],
    decreases segs.len(),
{
    lemma_kept_count_mono(segs, fs);
    if segs.len() > 0 {
        let n = segs.len() - 1;
        let front = segs.drop_last();
        let x = segs.last();
        lemma_remove_positions(front, fs);
        lemma_kept_count_mono(front, fs);
        assert(segs.take(n) =~= front);
        let k0 = remove_stale(front, fs).0;
        let kept = remove_stale(segs, fs).0;
        assert(kept == (if not_stale(x, fs) { k0.push(x) } else { k0 }));
        lemma_kept_count_prefix_at(segs, fs, n, n);
        assert forall|j: int| 0 <= j < segs.len() && not_stale(segs[j], fs) implies #[trigger] kept[kept_count(
            segs,
            fs,
            j,
        )] == segs[j] by {
            if j < n {
                assert(front[j] == segs[j]);
                lemma_kept_count_prefix_at(segs, fs, n, j);
                let kc = kept_count(front, fs, j);
                assert(kc < kept_count(front, fs, j + 1));
                assert(kept_count(front, fs, j + 1) <= kept_count(front, fs, n));
                assert(k0.len() == kept_count(front, fs, n));
                assert(kc < k0.len());
                assert(kept_count(front, fs, 0) == 0);
                assert(0 <= kc);
                if not_stale(x, fs) {
                    assert(kept == k0.push(x));
                    assert(k0.push(x)[kc] == k0[kc]);
                } else {
                    assert(kept == k0);
                }
                assert(kept[kc] == k0[kc]);
                assert(k0[kept_count(front, fs, j)] == front[j]);
            }
        }
    }
}

/// [`kept_count`] never decreases, and grows at every kept piece.
proof fn lemma_kept_count_mono(segs: Seq<Seg>, fs: Seq<FenceSpec>)
    ensures
        forall|a: int, b: int| 0 <= a <= b ==> #[trigger] kept_count(segs, fs, a) <= #[trigger] kept_count(segs, fs, b),
        forall|j: int| 0 <= j && not_stale(segs[j], fs) ==> kept_count(segs, fs, j) < #[trigger] kept_count(segs, fs, j + 1),
{
    assert forall|a: int, b: int| 0 <= a <= b implies #[trigger] kept_count(segs, fs, a) <= #[trigger] kept_count(segs, fs, b) by {
        lemma_kept_count_le(segs, fs, a, b);
    }
}

/// [`kept_count`] at `a` is at most at `b`.
proof fn lemma_kept_count_le(segs: Seq<Seg>, fs: Seq<FenceSpec>, a: int, b: int)
    requires
        0 <= a <= b,
    ensures
        kept_count(segs, fs, a) <= kept_count(segs, fs, b),
    decreases b - a,
{
    if a < b {
        lemma_kept_count_le(segs, fs, a, b - 1);
    }
}

/// [`kept_count`] over a prefix depends only on the prefix.
proof fn lemma_kept_count_prefix_at(segs: Seq<Seg>, fs: Seq<FenceSpec>, m: int, j: int)
    requires
        0 <= j <= m <= segs.len(),
    ensures
        kept_count(segs.take(m), fs, j) == kept_count(segs, fs, j),
    decreases j,
{
    if j > 0 {
        lemma_kept_count_prefix_at(segs, fs, m, j - 1);
        assert(segs.take(m)[j - 1] == segs[j - 1]);
    }
}

/// Where removal puts piece `k` of the existing file: its place after the
/// desired fences are reconciled, counted among the pieces removal keeps.
pub open spec fn written_pos(segs: Seq<Seg>, fs: Seq<FenceSpec>, k: int) -> int {
    kept_count(apply_desired(segs, omit_args(segs), fs).0, fs, k)
}

/// Applying never loses or reorders what the user owns: every line outside
/// yard's fences and every overridden fence of the existing `.gitignore` is
/// in the written file, in the same order, unchanged but for a newline the
/// file's last line may gain.
#[verifier::spinoff_prover]
#[verifier::rlimit(80)]
pub proof fn law_user_content_kept(fs: Seq<FenceSpec>, existing: Seq<char>)
    requires
        plan_gitignore(fs, Some(existing)) is Ok,
    ensures
        ({
            let before = parse_segments(existing)->Ok_0;
            let written = plan_gitignore(fs, Some(existing))->Ok_0.contents;
            let after = parse_segments(written->Some_0)->Ok_0;
            &&& written is Some
            &&& parse_segments(written->Some_0) is Ok
            &&& forall|k: int| 0 <= k < before.len() && #[trigger] user_piece(before[k]) ==> 0 <= written_pos(
                before,
                fs,
                k,
            ) < after.len() && (after[written_pos(before, fs, k)] == before[k]
                || after[written_pos(before, fs, k)] == with_newline(before[k]))
            &&& forall|k1: int, k2: int|
                0 <= k1 < k2 < before.len() && #[trigger] user_piece(before[k1]) && #[trigger] user_piece(
                    before[k2],
                ) ==> written_pos(before, fs, k1) < written_pos(before, fs, k2)
        }),
{
    law_planned_fences_ok(fs, Some(existing));
    lemma_parse_well_formed(existing);
    let segs0 = parse_segments(existing)->Ok_0;
    let omits = omit_args(segs0);
    lemma_apply_first(segs0, omits, fs);
    lemma_apply_user(segs0, omits, fs);
    let s1 = apply_desired(segs0, omits, fs).0;
    lemma_remove_first(s1, fs);
    let s2 = remove_stale(s1, fs).0;
    lemma_parse_render(s2);
    lemma_remove_positions(s1, fs);
    lemma_kept_count_mono(s1, fs);
    assert forall|k: int| 0 <= k < segs0.len() && #[trigger] user_piece(segs0[k]) implies 0 <= written_pos(
        segs0,
        fs,
        k,
    ) < s2.len() && (s2[written_pos(segs0, fs, k)] == segs0[k] || s2[written_pos(segs0, fs, k)]
        == with_newline(segs0[k])) by {
        lemma_with_newline_user(segs0[k]);
        assert(user_piece(s1[k]));
        assert(not_stale(s1[k], fs));
        assert(s2[kept_count(s1, fs, k)] == s1[k]);
        assert(kept_count(s1, fs, 0) == 0);
        assert(0 <= kept_count(s1, fs, k));
        assert(kept_count(s1, fs, k) < kept_count(s1, fs, k + 1));
        assert(kept_count(s1, fs, k + 1) <= kept_count(s1, fs, s1.len() as int));
    }
    assert forall|k1: int, k2: int|
        0 <= k1 < k2 < segs0.len() && #[trigger] user_piece(segs0[k1]) && #[trigger] user_piece(
            segs0[k2],
        ) implies written_pos(segs0, fs, k1) < written_pos(segs0, fs, k2) by {
        lemma_with_newline_user(segs0[k1]);
        assert(user_piece(s1[k1]));
        assert(not_stale(s1[k1], fs));
        assert(kept_count(s1, fs, k1) < kept_count(s1, fs, k1 + 1));
        assert(kept_count(s1, fs, k1 + 1) <= kept_count(s1, fs, k2));
    }
}

/// A fence that is in sync, overridden or omitted is never rewritten:
/// reconciling it leaves every piece of the `.gitignore` as it was. Only an
/// update or a re-emission changes the file.
pub proof fn law_step_only_updates_write(segs: Seq<Seg>, omits: Seq<Seq<char>>, f: FenceSpec)
    ensures
        ({
            let (after, act) = step(segs, omits, f);
            (act is InSync || act is Overridden || act is Omitted) ==> after == segs
        }),
{
}

/// Merging one more contribution `c` into the fences merged from `cs`: a
/// new id appends `c` as its fence, as contributed; an id already merged
/// keeps every fence in place, leaves the other fences as they are, and
/// extends that fence's lines: its old lines stay, in front and in order,
/// and after them come the lines of `c` it did not hold yet, each once, in
/// the order they first occur in `c`.
pub proof fn law_merge_step(cs: Seq<FenceSpec>, c: FenceSpec)
    ensures
        ({
            let before = merge_all(cs);
            let after = merge_all(cs.push(c));
            if !has_fence(before, c.0) {
                after == before.push(c)
            } else {
                &&& after.len() == before.len()
                &&& forall|i: int| 0 <= i < before.len() ==> (#[trigger] after[i]).0 == before[i].0
                &&& forall|i: int| 0 <= i < before.len() && before[i].0 != c.0 ==> #[trigger] after[i] == before[i]
                &&& forall|i: int| 0 <= i < before.len() && before[i].0 == c.0 ==> {
                    let old = before[i].1;
                    let new = (#[trigger] after[i]).1;
                    &&& old.len() <= new.len()
                    &&& new.subrange(0, old.len() as int) == old
                    &&& forall|x: Seq<char>| #[trigger] new.contains(x) == (old.contains(x) || c.1.contains(x))
                    &&& forall|k: int| old.len() <= k < new.len() ==> !new.take(k).contains(#[trigger] new[k])
                    &&& forall|k1: int, k2: int|
                        old.len() <= k1 < k2 < new.len() ==> crate::adaptors::pixi::laws::comes_first(
                            c.1,
                            #[trigger] new[k1],
                            #[trigger] new[k2],
                        )
                }
            }
        }),
{
    let before = merge_all(cs);
    let cs2 = cs.push(c);
    assert(cs2.drop_last() =~= cs);
    assert(cs2.last() == c);
    let after = merge_all(cs2);
    assert(after == merge_one(before, c));
    law_merge_fences(cs);
    lemma_index_of_id_from(before, c.0, 0);
    let k = index_of_id(before, c.0);
    if k >= 0 {
        assert(has_fence(before, c.0));
        let old = before[k].1;
        crate::adaptors::gitignore::laws::lemma_add_missing(old, c.1);
        crate::adaptors::pixi::laws::lemma_add_missing_shape(old, c.1);
        crate::adaptors::pixi::laws::lemma_add_missing_order(old, c.1);
        assert forall|i: int| 0 <= i < before.len() && before[i].0 == c.0 implies i == k by {
            if i != k {
                if i < k {
                    assert(before[i].0 != before[k].0);
                } else {
                    assert(before[k].0 != before[i].0);
                }
            }
        }
    } else {
        if has_fence(before, c.0) {
            let i = choose|i: int| 0 <= i < before.len() && #[trigger] before[i].0 == c.0;
            assert(before[i].0 != c.0);
        }
    }
}

} // verus!
