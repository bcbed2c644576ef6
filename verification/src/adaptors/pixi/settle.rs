//! Reconciling a target a second time: what yard rewrote the first time
//! now reads back in sync, and what it left alone is reported alike.
use vstd::prelude::*;

use super::laws::{
    bare_key, key_path_of, lemma_add_missing_shape, lemma_find_key_from, lemma_section_update, law_array_keeps_user_items,
    law_managed_line_reads_back, law_written_key_in_sync,
};
use super::lines::{Marker, PLine, classify_pline, is_valid_path, key_end};
use super::reconcile::{
    Target, find_key_from, in_order, matched, is_key_line, managed_line, pline_at, reconcile_target, section_before,
    without,
};
use super::roundtrip::{law_added_key_reads_back, lemma_find_key_is};
use super::value::{
    Value, array_items, array_rest, parse_string, parse_value, plain_text, plain_value, skip_ws,
    string_body, literal_body,
};
use crate::adaptors::Action;
use crate::adaptors::gitignore::add_missing;
use crate::text::strip_eol;

verus! {

/// A string the parser decodes holds no line break.
proof fn lemma_string_body_plain(t: Seq<char>, j: int, acc: Seq<char>)
    requires
        plain_text(acc),
    ensures
        string_body(t, j, acc) matches Some((s, _)) ==> plain_text(s),
    decreases t.len() - j,
{
    if 0 <= j < t.len() && t[j] != '"' {
        if t[j] == '\\' {
            if j + 1 < t.len() && (t[j + 1] == '"' || t[j + 1] == '\\') {
                let c = t[j + 1];
                assert forall|k: int| 0 <= k < acc.push(c).len() implies #[trigger] acc.push(c)[k] != '\n'
                    && acc.push(c)[k] != '\r' by {
                    if k < acc.len() {
                        assert(acc.push(c)[k] == acc[k]);
                    }
                }
                lemma_string_body_plain(t, j + 2, acc.push(c));
            }
        } else if t[j] != '\n' && t[j] != '\r' {
            let c = t[j];
            assert forall|k: int| 0 <= k < acc.push(c).len() implies #[trigger] acc.push(c)[k] != '\n'
                && acc.push(c)[k] != '\r' by {
                if k < acc.len() {
                    assert(acc.push(c)[k] == acc[k]);
                }
            }
            lemma_string_body_plain(t, j + 1, acc.push(c));
        }
    }
}

/// A literal string the parser reads holds no line break.
proof fn lemma_literal_body_plain(t: Seq<char>, j: int, acc: Seq<char>)
    requires
        plain_text(acc),
    ensures
        literal_body(t, j, acc) matches Some((s, _)) ==> plain_text(s),
    decreases t.len() - j,
{
    if 0 <= j < t.len() && t[j] != '\'' && t[j] != '\n' && t[j] != '\r' {
        let c = t[j];
        assert forall|k: int| 0 <= k < acc.push(c).len() implies #[trigger] acc.push(c)[k] != '\n'
            && acc.push(c)[k] != '\r' by {
            if k < acc.len() {
                assert(acc.push(c)[k] == acc[k]);
            }
        }
        lemma_literal_body_plain(t, j + 1, acc.push(c));
    }
}

/// The items of an array the parser reads hold no line break.
proof fn lemma_array_items_plain(t: Seq<char>, j: int, acc: Seq<Seq<char>>)
    requires
        forall|k: int| 0 <= k < acc.len() ==> plain_text(#[trigger] acc[k]),
    ensures
        array_items(t, j, acc) matches Some((items, _)) ==> forall|k: int|
            0 <= k < items.len() ==> plain_text(#[trigger] items[k]),
    decreases t.len() - j, 1int,
{
    let k = skip_ws(t, j);
    if !(k < j || k >= t.len()) && t[k] != ']' {
        lemma_string_body_plain(t, k + 1, seq![]);
        lemma_literal_body_plain(t, k + 1, seq![]);
        match parse_string(t, k) {
            Some((s, e)) => if !(e <= k || e > t.len()) {
                assert forall|m: int| 0 <= m < acc.push(s).len() implies plain_text(#[trigger] acc.push(s)[m]) by {
                    if m < acc.len() {
                        assert(acc.push(s)[m] == acc[m]);
                    }
                }
                lemma_array_rest_plain(t, e, acc.push(s));
            },
            None => {},
        }
    }
}

/// What follows an array item keeps the items free of line breaks.
proof fn lemma_array_rest_plain(t: Seq<char>, j: int, acc: Seq<Seq<char>>)
    requires
        forall|k: int| 0 <= k < acc.len() ==> plain_text(#[trigger] acc[k]),
    ensures
        array_rest(t, j, acc) matches Some((items, _)) ==> forall|k: int|
            0 <= k < items.len() ==> plain_text(#[trigger] items[k]),
    decreases t.len() - j, 0int,
{
    let k = skip_ws(t, j);
    if !(k < j || k >= t.len()) && t[k] == ',' {
        lemma_array_items_plain(t, k + 1, acc);
    }
}

/// A value the parser reads holds no line break.
proof fn lemma_parse_value_plain(t: Seq<char>, i: int)
    ensures
        parse_value(t, i) matches Some((v, _)) ==> plain_value(v),
{
    lemma_string_body_plain(t, i + 1, seq![]);
    lemma_literal_body_plain(t, i + 1, seq![]);
    lemma_array_items_plain(t, i + 1, seq![]);
}

/// The value of a key line holds no line break.
pub(crate) proof fn lemma_key_value_plain(t: Seq<char>)
    ensures
        classify_pline(t) matches PLine::Key { value, .. } ==> plain_value(value),
{
    let i0 = skip_ws(t, 0);
    let eq = skip_ws(t, key_end(t, i0));
    lemma_parse_value_plain(t, skip_ws(t, eq + 1));
}

/// Leaving out of `items` what `excl` lacks entirely keeps every item.
proof fn lemma_without_none(items: Seq<Seq<char>>, excl: Seq<Seq<char>>)
    requires
        forall|k: int| 0 <= k < items.len() ==> !excl.contains(#[trigger] items[k]),
    ensures
        without(items, excl) == items,
    decreases items.len(),
{
    if items.len() > 0 {
        let front = items.drop_last();
        assert forall|k: int| 0 <= k < front.len() implies !excl.contains(#[trigger] front[k]) by {
            assert(front[k] == items[k]);
        }
        lemma_without_none(front, excl);
        assert(front.push(items.last()) =~= items);
    }
}

/// [`without`] over a concatenation.
proof fn lemma_without_concat(a: Seq<Seq<char>>, b: Seq<Seq<char>>, e: Seq<Seq<char>>)
    ensures
        without(a + b, e) == without(a, e) + without(b, e),
    decreases b.len(),
{
    if b.len() == 0 {
        assert(a + b =~= a);
        assert(without(a, e) + without(b, e) =~= without(a, e));
    } else {
        let front = b.drop_last();
        lemma_without_concat(a, front, e);
        assert((a + b).drop_last() =~= a + front);
        assert((a + b).last() == b.last());
        if !e.contains(b.last()) {
            assert(without(a, e) + without(front, e).push(b.last()) =~= (without(a, e) + without(
                front,
                e,
            )).push(b.last()));
        }
    }
}

/// Adding items none of which is already there appends them all.
proof fn lemma_add_fresh(w: Seq<Seq<char>>, a: Seq<Seq<char>>)
    requires
        forall|k: int| 0 <= k < a.len() ==> !(w + a.take(k)).contains(#[trigger] a[k]),
    ensures
        add_missing(w, a) == w + a,
    decreases a.len(),
{
    if a.len() > 0 {
        let front = a.drop_last();
        assert forall|k: int| 0 <= k < front.len() implies !(w + front.take(k)).contains(#[trigger] front[k]) by {
            assert(front.take(k) =~= a.take(k));
            assert(front[k] == a[k]);
        }
        lemma_add_fresh(w, front);
        assert(a.take(a.len() - 1) =~= front);
        assert((w + front).push(a.last()) =~= w + a);
    }
}

/// An array yard rewrote, rewritten again with the same wanted items, stays
/// as it is: it still holds every wanted item, and the user's items it
/// keeps are those it already had.
proof fn lemma_array_settles(w: Seq<Seq<char>>, u: Seq<Seq<char>>)
    ensures
        in_order(w, add_missing(w, u)),
        add_missing(w, without(add_missing(w, u), w)) == add_missing(w, u),
{
    let n = add_missing(w, u);
    lemma_add_missing_shape(w, u);
    let a = n.skip(w.len() as int);
    assert(n =~= n.subrange(0, w.len() as int) + a);
    assert(n == w + a);
    assert forall|k: int| 0 <= k < a.len() implies !(w + a.take(k)).contains(#[trigger] a[k]) by {
        assert(a[k] == n[w.len() + k]);
        assert(n.take(w.len() + k) =~= w + a.take(k));
    }
    assert forall|k: int| 0 <= k < a.len() implies !w.contains(#[trigger] a[k]) by {
        if w.contains(a[k]) {
            let j = choose|j: int| 0 <= j < w.len() && w[j] == a[k];
            assert((w + a.take(k))[j] == w[j]);
            assert((w + a.take(k)).contains(a[k]));
        }
    }
    lemma_without_concat(w, a, w);
    assert forall|k: int| 0 <= k < w.len() implies w.contains(#[trigger] w[k]) by {}
    super::laws::lemma_without_all(w, w);
    lemma_without_none(a, w);
    assert(without(n, w) =~= a);
    lemma_add_fresh(w, a);
    lemma_matched_prefix(w, a, n.len() as int);
}

/// Matching `w` against `w + a` takes the first items one by one, and
/// matches all of `w`.
pub(crate) proof fn lemma_matched_prefix(w: Seq<Seq<char>>, a: Seq<Seq<char>>, n: int)
    requires
        0 <= n <= w.len() + a.len(),
    ensures
        matched(w, w + a, n) == if n <= w.len() {
            n
        } else {
            w.len() as int
        },
    decreases n,
{
    if n > 0 {
        lemma_matched_prefix(w, a, n - 1);
        if n - 1 < w.len() {
            assert((w + a)[n - 1] == w[n - 1]);
        }
    }
}

/// Before the line [`find_key_from`] finds, no line is that key.
pub(crate) proof fn lemma_find_first(l: Seq<Seq<char>>, section: Seq<char>, key: Seq<char>, j: int)
    requires
        0 <= j,
    ensures
        find_key_from(l, section, key, j) >= 0 ==> forall|m: int|
            j <= m < find_key_from(l, section, key, j) ==> !#[trigger] is_key_line(l, m, section, key),
    decreases l.len() - j,
{
    if j < l.len() && !is_key_line(l, j, section, key) {
        lemma_find_first(l, section, key, j + 1);
    }
}

/// Rewriting the first line of a key as another line of that key keeps it
/// the first.
proof fn lemma_rewrite_found(lines: Seq<Seq<char>>, section: Seq<char>, key: Seq<char>, i: int, x: Seq<char>)
    requires
        find_key_from(lines, section, key, 0) == i,
        i >= 0,
        classify_pline(strip_eol(x)) matches PLine::Key { key: k, .. } && k == key,
    ensures
        i < lines.len(),
        find_key_from(lines.update(i, x), section, key, 0) == i,
{
    lemma_find_key_from(lines, section, key, 0);
    lemma_find_first(lines, section, key, 0);
    let after = lines.update(i, x);
    assert(pline_at(after, i) == classify_pline(strip_eol(x)));
    assert forall|p: int| 0 <= p <= lines.len() implies #[trigger] section_before(after, p) == section_before(
        lines,
        p,
    ) by {
        lemma_section_update(lines, i, x, p);
    }
    assert forall|m: int| 0 <= m < i implies !#[trigger] is_key_line(after, m, section, key) by {
        assert(after[m] == lines[m]);
        assert(section_before(after, m) == section_before(lines, m));
        assert(!is_key_line(lines, m, section, key));
    }
    assert(section_before(after, i) == section_before(lines, i));
    lemma_find_key_is(after, section, key, 0, i);
}

/// A key yard rewrote with the wanted value reads back in sync.
proof fn lemma_rewrite_settles(lines: Seq<Seq<char>>, omits: Seq<Seq<char>>, tgt: Target, i: int)
    requires
        bare_key(tgt.1),
        plain_value(tgt.2),
        find_key_from(lines, tgt.0, tgt.1, 0) == i,
        i >= 0,
    ensures
        ({
            let after = lines.update(i, managed_line(tgt.1, tgt.2, tgt.2));
            reconcile_target(after, omits, tgt) == (after, Action::InSync { key: key_path_of(tgt) })
        }),
{
    let ml = managed_line(tgt.1, tgt.2, tgt.2);
    law_managed_line_reads_back(tgt.1, tgt.2, tgt.2);
    lemma_rewrite_found(lines, tgt.0, tgt.1, i, ml);
    law_written_key_in_sync(lines.update(i, ml), omits, tgt);
}

/// A managed array yard rewrote reads back in sync.
#[verifier::spinoff_prover]
#[verifier::rlimit(40)]
proof fn lemma_array_rewrite_settles(
    lines: Seq<Seq<char>>,
    omits: Seq<Seq<char>>,
    tgt: Target,
    i: int,
    w: Seq<Seq<char>>,
    cur: Seq<Seq<char>>,
    dv: Seq<Seq<char>>,
)
    requires
        bare_key(tgt.1),
        plain_value(tgt.2),
        tgt.2 == Value::Arr(w),
        forall|k: int| 0 <= k < cur.len() ==> plain_text(#[trigger] cur[k]),
        find_key_from(lines, tgt.0, tgt.1, 0) == i,
        i >= 0,
    ensures
        ({
            let n = add_missing(w, without(cur, dv));
            let after = lines.update(i, managed_line(tgt.1, Value::Arr(n), tgt.2));
            reconcile_target(after, omits, tgt) == (after, Action::InSync { key: key_path_of(tgt) })
        }),
{
    let (section, key, want) = tgt;
    let n = add_missing(w, without(cur, dv));
    law_array_keeps_user_items(w, cur, dv);
    assert forall|k: int| 0 <= k < w.len() implies plain_text(#[trigger] w[k]) by {
        let v = Value::Arr(w);
        assert(plain_value(v));
        assert(v->Arr_0[k] == w[k]);
    }
    assert forall|k: int| 0 <= k < n.len() implies plain_text(#[trigger] n[k]) by {
        assert(n.contains(n[k]));
        if w.contains(n[k]) {
            let j = choose|j: int| 0 <= j < w.len() && w[j] == n[k];
            assert(plain_text(w[j]));
        } else {
            let j = choose|j: int| 0 <= j < cur.len() && cur[j] == n[k];
            assert(plain_text(cur[j]));
        }
    }
    let ml = managed_line(key, Value::Arr(n), want);
    law_managed_line_reads_back(key, Value::Arr(n), want);
    lemma_rewrite_found(lines, section, key, i, ml);
    lemma_array_settles(w, without(cur, dv));
    let after = lines.update(i, ml);
    assert(pline_at(after, i) == classify_pline(strip_eol(ml)));
}

/// The first pass over a target finds a key without a marker; all it does
/// there is attach one.
pub open spec fn attaches_marker(lines: Seq<Seq<char>>, tgt: Target) -> bool {
    let i = find_key_from(lines, tgt.0, tgt.1, 0);
    i >= 0 && pline_at(lines, i) matches PLine::Key { marker: Marker::NoMarker, .. }
}

/// What a second pass reports of a target the first reported as `act`: a
/// key the first pass wrote is in sync, anything else is reported alike.
pub open spec fn settled(act: Action, path: Seq<char>) -> Action {
    match act {
        Action::Updated { .. } => Action::InSync { key: path },
        Action::Reemitted { .. } => Action::InSync { key: path },
        _ => act,
    }
}

/// Reconciling a target twice: the second pass leaves the file as the
/// first left it. Where the first pass wrote the key (updated or re-emitted
/// it), the second reports it in sync; otherwise it reports what the first
/// did. This holds for a target in a table with a valid name, with a bare
/// key and a plain value, except where the first pass only attached a
/// marker to an unmarked key: how that key's value compares with the
/// recorded default is for the next pass to report.
pub proof fn law_target_settles(lines: Seq<Seq<char>>, omits: Seq<Seq<char>>, tgt: Target)
    requires
        is_valid_path(tgt.0),
        bare_key(tgt.1),
        plain_value(tgt.2),
        !attaches_marker(lines, tgt),
    ensures
        ({
            let first = reconcile_target(lines, omits, tgt);
            reconcile_target(first.0, omits, tgt) == (first.0, settled(first.1, key_path_of(tgt)))
        }),
{
    let (section, key, want) = tgt;
    let i = find_key_from(lines, section, key, 0);
    if i >= 0 {
        lemma_find_key_from(lines, section, key, 0);
        lemma_key_value_plain(strip_eol(lines[i]));
        match pline_at(lines, i) {
            PLine::Key { value, marker, .. } => match marker {
                Marker::Managed(d) => match (want, value, d) {
                    (Value::Arr(w), Value::Arr(cur), Value::Arr(dv)) => if in_order(dv, cur) {
                        let n = add_missing(w, without(cur, dv));
                        if !(n == cur && w == dv) {
                            lemma_array_rewrite_settles(lines, omits, tgt, i, w, cur, dv);
                        }
                    },
                    _ => if value == d && want != d {
                        lemma_rewrite_settles(lines, omits, tgt, i);
                    },
                },
                Marker::ManagedBadDefault => lemma_rewrite_settles(lines, omits, tgt, i),
                Marker::ManagedNoDefault => lemma_rewrite_settles(lines, omits, tgt, i),
                _ => {},
            },
            _ => {},
        }
    } else if !omits.contains(key_path_of(tgt)) {
        law_added_key_reads_back(lines, omits, tgt);
    }
}

} // verus!
