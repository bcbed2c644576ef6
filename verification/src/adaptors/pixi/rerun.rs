//! Applying the same intent to a `pixi.toml` that yard has just written:
//! the file stays as it is, what was written is reported in sync, and the
//! rest is reported as before.
use vstd::prelude::*;

use super::laws::{
    bare_key, lemma_close_line, lemma_find_key_from, lemma_section_update, law_array_keeps_user_items,
    law_managed_line_reads_back,
};
use super::lines::{Marker, PLine, classify_pline, is_valid_path};
use super::reconcile::{
    Target, close_line, reconcile_all, find_key_from, header_from, insert_key, is_key_line, managed_line,
    pline_at, reconcile_target, section_before, section_last, without,
};
use super::roundtrip::{
    header_line, lemma_added_in_table, lemma_added_new_table, lemma_find_key_absent, lemma_find_key_is,
    lemma_header_line,
};
use super::settle::{attaches_marker, law_target_settles, settled};
use super::laws::{bare_line, key_path_of, law_bare_line_reads_back};
use super::reconcile::{omit_report, plan_pixi, targets};
use super::roundtrip::{intent_ok, ws_targets, dep_targets};
use crate::text::{closed_but_last, concat, lines_of, line_run};
use super::reconcile::{is_target_path, key_path, omit_args, removal_at, removal_upto};
use crate::adaptors::Action;
use super::value::{Value, plain_text, plain_value, skip_ws};
use crate::adaptors::gitignore::add_missing;
use crate::text::{is_line, strip_eol};

verus! {

/// Targets yard can write and read back: tables with valid names, bare
/// keys, plain values, and no two for the same key of the same table.
pub open spec fn targets_ok(tg: Seq<Target>) -> bool {
    &&& forall|i: int|
        0 <= i < tg.len() ==> is_valid_path((#[trigger] tg[i]).0) && bare_key(tg[i].1) && plain_value(
            tg[i].2,
        )
    &&& forall|i: int, j: int|
        0 <= i < tg.len() && 0 <= j < tg.len() && i != j ==> ((#[trigger] tg[i]).0 != (#[trigger] tg[j]).0
            || tg[i].1 != tg[j].1)
}

/// Two files look alike to target `t`: the key is in both or in neither,
/// and where it is, its first line reads the same.
pub open spec fn same_view(a: Seq<Seq<char>>, b: Seq<Seq<char>>, t: Target) -> bool {
    let fa = find_key_from(a, t.0, t.1, 0);
    let fb = find_key_from(b, t.0, t.1, 0);
    &&& (fa >= 0) == (fb >= 0)
    &&& fa >= 0 ==> pline_at(a, fa) == pline_at(b, fb)
}

/// Where two files look alike to a target, reconciling it acts alike: an
/// action that writes nothing writes nothing in either, and a marker is
/// attached in both or neither.
proof fn lemma_same_view_action(a: Seq<Seq<char>>, b: Seq<Seq<char>>, o: Seq<Seq<char>>, t: Target)
    requires
        same_view(a, b, t),
    ensures
        attaches_marker(a, t) == attaches_marker(b, t),
        !(reconcile_target(a, o, t).1 is Updated) && !(reconcile_target(a, o, t).1 is Reemitted)
            && !(reconcile_target(a, o, t).1 is Marked) ==> reconcile_target(b, o, t) == (b, reconcile_target(a, o, t).1),
{
    lemma_find_key_from(a, t.0, t.1, 0);
    lemma_find_key_from(b, t.0, t.1, 0);
}

/// Rewriting a line that is not the target's key, as a line that is not
/// either, keeps the file's look to the target.
proof fn lemma_view_update(a: Seq<Seq<char>>, i: int, x: Seq<char>, t: Target)
    requires
        0 <= i < a.len(),
        !(pline_at(a, i) is Header),
        !(classify_pline(strip_eol(x)) is Header),
        !is_key_line(a, i, t.0, t.1),
        !is_key_line(a.update(i, x), i, t.0, t.1),
    ensures
        same_view(a, a.update(i, x), t),
{
    let b = a.update(i, x);
    assert forall|p: int| 0 <= p <= a.len() implies #[trigger] section_before(b, p) == section_before(a, p) by {
        lemma_section_update(a, i, x, p);
    }
    assert forall|m: int| 0 <= m < a.len() && m != i implies #[trigger] is_key_line(b, m, t.0, t.1) == is_key_line(
        a,
        m,
        t.0,
        t.1,
    ) by {
        assert(b[m] == a[m]);
        assert(section_before(b, m) == section_before(a, m));
    }
    let fa = find_key_from(a, t.0, t.1, 0);
    lemma_find_key_from(a, t.0, t.1, 0);
    if fa >= 0 {
        super::settle::lemma_find_first(a, t.0, t.1, 0);
        assert(fa != i);
        assert(is_key_line(b, fa, t.0, t.1));
        assert forall|m: int| 0 <= m < fa implies !#[trigger] is_key_line(b, m, t.0, t.1) by {
            if m != i {
                assert(!is_key_line(a, m, t.0, t.1));
            }
        }
        lemma_find_key_is(b, t.0, t.1, 0, fa);
        assert(b[fa] == a[fa]);
    } else {
        lemma_find_key_absent(a, t.0, t.1, 0);
        assert forall|m: int| 0 <= m < b.len() implies !#[trigger] is_key_line(b, m, t.0, t.1) by {
            if m != i {
                assert(!is_key_line(a, m, t.0, t.1));
            }
        }
        super::roundtrip::lemma_find_key_none(b, t.0, t.1, 0);
    }
}

/// Inserting a line that is no header shifts the tables of the lines after
/// it along with them.
proof fn lemma_section_insert(c: Seq<Seq<char>>, q: int, x: Seq<char>, m: int)
    requires
        0 <= q <= c.len(),
        !(classify_pline(strip_eol(x)) is Header),
        q < m <= c.len() + 1,
    ensures
        section_before(c.insert(q, x), m) == section_before(c, m - 1),
    decreases m,
{
    let b = c.insert(q, x);
    if m == q + 1 {
        assert(pline_at(b, q) == classify_pline(strip_eol(x)));
        assert forall|k: int| 0 <= k < q implies #[trigger] pline_at(b, k) == pline_at(c, k) by {
            assert(b[k] == c[k]);
        }
        super::laws::lemma_section_same_prefix(b, c, q);
    } else {
        assert(b[m - 1] == c[m - 2]);
        lemma_section_insert(c, q, x, m - 1);
    }
}

/// Adding a line at the end of a table, where it is not the target's key,
/// keeps the file's look to the target.
proof fn lemma_view_insert(a: Seq<Seq<char>>, q: int, x: Seq<char>, t: Target)
    requires
        0 < q <= a.len(),
        !(classify_pline(strip_eol(x)) is Header),
        !is_key_line(close_line(a, q).insert(q, x), q, t.0, t.1),
    ensures
        same_view(a, close_line(a, q).insert(q, x), t),
{
    let c = close_line(a, q);
    let b = c.insert(q, x);
    lemma_close_line(a, q);
    assert forall|k: int| 0 <= k < a.len() implies #[trigger] pline_at(c, k) == pline_at(a, k) by {
        assert(strip_eol(c[k]) == strip_eol(a[k]));
    }
    assert forall|p: int| 0 <= p <= a.len() implies #[trigger] section_before(c, p) == section_before(a, p) by {
        super::laws::lemma_section_same_prefix(c, a, p);
    }
    assert forall|m: int| 0 <= m < q implies #[trigger] is_key_line(b, m, t.0, t.1) == is_key_line(a, m, t.0, t.1) by {
        assert(b[m] == c[m]);
        assert forall|k: int| 0 <= k < m implies #[trigger] pline_at(b, k) == pline_at(c, k) by {
            assert(b[k] == c[k]);
        }
        super::laws::lemma_section_same_prefix(b, c, m);
    }
    assert forall|m: int| q < m < b.len() implies #[trigger] is_key_line(b, m, t.0, t.1) == is_key_line(
        a,
        m - 1,
        t.0,
        t.1,
    ) by {
        assert(b[m] == c[m - 1]);
        lemma_section_insert(c, q, x, m);
    }
    let fa = find_key_from(a, t.0, t.1, 0);
    lemma_find_key_from(a, t.0, t.1, 0);
    if fa >= 0 {
        super::settle::lemma_find_first(a, t.0, t.1, 0);
        if fa < q {
            assert(is_key_line(b, fa, t.0, t.1));
            assert forall|m: int| 0 <= m < fa implies !#[trigger] is_key_line(b, m, t.0, t.1) by {
                assert(!is_key_line(a, m, t.0, t.1));
            }
            lemma_find_key_is(b, t.0, t.1, 0, fa);
            assert(b[fa] == c[fa]);
        } else {
            assert(is_key_line(b, fa + 1, t.0, t.1));
            assert forall|m: int| 0 <= m < fa + 1 implies !#[trigger] is_key_line(b, m, t.0, t.1) by {
                if m < q {
                    assert(!is_key_line(a, m, t.0, t.1));
                } else if m > q {
                    assert(!is_key_line(a, m - 1, t.0, t.1));
                }
            }
            lemma_find_key_is(b, t.0, t.1, 0, fa + 1);
            assert(b[fa + 1] == c[fa]);
        }
    } else {
        lemma_find_key_absent(a, t.0, t.1, 0);
        assert forall|m: int| 0 <= m < b.len() implies !#[trigger] is_key_line(b, m, t.0, t.1) by {
            if m < q {
                assert(!is_key_line(a, m, t.0, t.1));
            } else if m > q {
                assert(!is_key_line(a, m - 1, t.0, t.1));
            }
        }
        super::roundtrip::lemma_find_key_none(b, t.0, t.1, 0);
    }
}

/// The lines yard appends when a table is new: a blank line if the file
/// has lines, the table's header and the key.
pub open spec fn new_table_tail(a: Seq<Seq<char>>, s: Seq<char>, x: Seq<char>) -> Seq<Seq<char>> {
    (if a.len() > 0 {
        seq![seq!['\n']]
    } else {
        Seq::<Seq<char>>::empty()
    }) + seq![header_line(s), x]
}

/// Starting a new table at the end of the file, with a key that is not
/// the target's, keeps the file's look to the target.
proof fn lemma_view_append(a: Seq<Seq<char>>, s: Seq<char>, x: Seq<char>, t: Target)
    requires
        is_valid_path(s),
        !is_key_line(
            close_line(a, a.len() as int) + new_table_tail(a, s, x),
            a.len() + new_table_tail(a, s, x).len() - 1,
            t.0,
            t.1,
        ),
    ensures
        same_view(a, close_line(a, a.len() as int) + new_table_tail(a, s, x), t),
{
    let c = close_line(a, a.len() as int);
    let tail = new_table_tail(a, s, x);
    let b = c + tail;
    lemma_close_line(a, a.len() as int);
    lemma_header_line(s);
    super::roundtrip::lemma_blank_line();
    assert forall|k: int| 0 <= k < a.len() implies #[trigger] pline_at(b, k) == pline_at(a, k) by {
        assert(b[k] == c[k]);
        assert(strip_eol(c[k]) == strip_eol(a[k]));
    }
    assert forall|m: int| 0 <= m < a.len() implies #[trigger] is_key_line(b, m, t.0, t.1) == is_key_line(a, m, t.0, t.1) by {
        super::laws::lemma_section_same_prefix(b, a, m);
    }
    assert forall|m: int| a.len() <= m < b.len() - 1 implies !#[trigger] is_key_line(b, m, t.0, t.1) by {
        if a.len() > 0 && m == a.len() {
            assert(b[m] == seq!['\n']);
        } else {
            assert(b[m] == header_line(s));
        }
    }
    let fa = find_key_from(a, t.0, t.1, 0);
    lemma_find_key_from(a, t.0, t.1, 0);
    if fa >= 0 {
        super::settle::lemma_find_first(a, t.0, t.1, 0);
        assert(is_key_line(b, fa, t.0, t.1));
        assert forall|m: int| 0 <= m < fa implies !#[trigger] is_key_line(b, m, t.0, t.1) by {
            assert(!is_key_line(a, m, t.0, t.1));
        }
        lemma_find_key_is(b, t.0, t.1, 0, fa);
    } else {
        lemma_find_key_absent(a, t.0, t.1, 0);
        assert forall|m: int| 0 <= m < b.len() implies !#[trigger] is_key_line(b, m, t.0, t.1) by {
            if m < a.len() {
                assert(!is_key_line(a, m, t.0, t.1));
            }
        }
        super::roundtrip::lemma_find_key_none(b, t.0, t.1, 0);
    }
}

/// What a written key line reads as: the key, in no header.
proof fn lemma_written_key(key: Seq<char>, v: Value, d: Value)
    requires
        bare_key(key),
        plain_value(v),
        plain_value(d),
    ensures
        classify_pline(strip_eol(managed_line(key, v, d))) matches PLine::Key { key: k, .. } && k == key,
{
    law_managed_line_reads_back(key, v, d);
}

/// The items of a rewritten array, from wanted and parsed items, are plain.
proof fn lemma_new_items_plain(w: Seq<Seq<char>>, cur: Seq<Seq<char>>, dv: Seq<Seq<char>>)
    requires
        forall|k: int| 0 <= k < w.len() ==> plain_text(#[trigger] w[k]),
        forall|k: int| 0 <= k < cur.len() ==> plain_text(#[trigger] cur[k]),
    ensures
        plain_value(Value::Arr(add_missing(w, without(cur, dv)))),
{
    let n = add_missing(w, without(cur, dv));
    law_array_keeps_user_items(w, cur, dv);
    assert forall|k: int| 0 <= k < n.len() implies plain_text(#[trigger] n[k]) by {
        assert(n.contains(n[k]));
        if w.contains(n[k]) {
            let j = choose|j: int| 0 <= j < w.len() && w[j] == n[k];
            assert(plain_text(w[j]));
        } else {
            let j = choose|j: int| 0 <= j < cur.len() && cur[j] == n[k];
            assert(plain_text(cur[j]));
        }
    }
}

/// `x` reads as a line of key `key`.
pub open spec fn key_line_of(x: Seq<char>, key: Seq<char>) -> bool {
    classify_pline(strip_eol(x)) matches PLine::Key { key: k, .. } && k == key
}

/// Where the key is in the file, reconciling it leaves the file or
/// rewrites that one line as a line of the same key. This holds for a
/// target yard can write that is not merely given a marker.
#[verifier::spinoff_prover]
#[verifier::rlimit(40)]
proof fn lemma_found_rewrite(a: Seq<Seq<char>>, o: Seq<Seq<char>>, t2: Target)
    requires
        bare_key(t2.1),
        plain_value(t2.2),
        !attaches_marker(a, t2),
        find_key_from(a, t2.0, t2.1, 0) >= 0,
    ensures
        ({
            let i = find_key_from(a, t2.0, t2.1, 0);
            let b = reconcile_target(a, o, t2).0;
            &&& i < a.len()
            &&& b == a || (b == a.update(i, b[i]) && key_line_of(b[i], t2.1))
        }),
{
    let (section, key, want) = t2;
    let b = reconcile_target(a, o, t2).0;
    let i = find_key_from(a, section, key, 0);
    lemma_find_key_from(a, section, key, 0);
    super::settle::lemma_key_value_plain(strip_eol(a[i]));
    match pline_at(a, i) {
        PLine::Key { value, marker, .. } => {
            match (want, value, marker) {
                (Value::Arr(w), Value::Arr(cur), Marker::Managed(Value::Arr(dv))) => {
                    assert forall|k: int| 0 <= k < w.len() implies plain_text(#[trigger] w[k]) by {
                        let v = Value::Arr(w);
                        assert(plain_value(v));
                        assert(v->Arr_0[k] == w[k]);
                    }
                    lemma_new_items_plain(w, cur, dv);
                    lemma_written_key(key, Value::Arr(add_missing(w, without(cur, dv))), want);
                },
                _ => {
                    lemma_written_key(key, want, want);
                },
            }
        },
        _ => {},
    }
}

/// Reconciling one target keeps the file's look to any other target. This
/// holds for a target yard can write that is not merely given a marker.
#[verifier::spinoff_prover]
#[verifier::rlimit(40)]
proof fn lemma_step_view(a: Seq<Seq<char>>, o: Seq<Seq<char>>, t2: Target, t: Target)
    requires
        is_valid_path(t2.0),
        bare_key(t2.1),
        plain_value(t2.2),
        !attaches_marker(a, t2),
        t2.0 != t.0 || t2.1 != t.1,
    ensures
        same_view(a, reconcile_target(a, o, t2).0, t),
{
    let (section, key, want) = t2;
    let b = reconcile_target(a, o, t2).0;
    let i = find_key_from(a, section, key, 0);
    if b != a {
        if i >= 0 {
            lemma_found_rewrite(a, o, t2);
            lemma_find_key_from(a, section, key, 0);
            let x = b[i];
            lemma_section_update(a, i, x, i);
            lemma_view_update(a, i, x, t);
        } else {
            let ml = managed_line(key, want, want);
            lemma_written_key(key, want, want);
            assert(b == insert_key(a, section, ml));
            let h = header_from(a, section, 0);
            super::laws::lemma_header_from(a, section, 0);
            lemma_find_key_absent(a, section, key, 0);
            if h >= 0 {
                lemma_added_in_table(a, section, key, ml);
                let q = section_last(a, h + 1, h) + 1;
                if h + 1 < a.len() {
                    super::laws::lemma_section_last(a, h + 1, h);
                }
                lemma_find_key_from(b, section, key, 0);
                assert(b == close_line(a, q).insert(q, ml));
                lemma_view_insert(a, q, ml, t);
            } else {
                lemma_added_new_table(a, section, key, ml);
                lemma_find_key_from(b, section, key, 0);
                assert(b == close_line(a, a.len() as int) + new_table_tail(a, section, ml));
                lemma_view_append(a, section, ml, t);
            }
        }
    }
}

/// The file after reconciling the first `m` targets.
pub open spec fn state(lines: Seq<Seq<char>>, o: Seq<Seq<char>>, tg: Seq<Target>, m: int) -> Seq<Seq<char>> {
    reconcile_all(lines, o, tg.take(m)).0
}

/// Reconciling one more target.
proof fn lemma_all_step(lines: Seq<Seq<char>>, o: Seq<Seq<char>>, tg: Seq<Target>, m: int)
    requires
        0 <= m < tg.len(),
    ensures
        state(lines, o, tg, m + 1) == reconcile_target(state(lines, o, tg, m), o, tg[m]).0,
        reconcile_all(lines, o, tg.take(m + 1)).1 == reconcile_all(lines, o, tg.take(m)).1.push(
            reconcile_target(state(lines, o, tg, m), o, tg[m]).1,
        ),
{
    assert(tg.take(m + 1).drop_last() =~= tg.take(m));
    assert(tg.take(m + 1).last() == tg[m]);
}

/// The actions of reconciling the first `m` targets: one per target, each
/// what reconciling it reported in its turn.
proof fn lemma_all_actions(lines: Seq<Seq<char>>, o: Seq<Seq<char>>, tg: Seq<Target>, m: int)
    requires
        0 <= m <= tg.len(),
    ensures
        reconcile_all(lines, o, tg.take(m)).1.len() == m,
        forall|k: int|
            0 <= k < m ==> #[trigger] reconcile_all(lines, o, tg.take(m)).1[k] == reconcile_target(
                state(lines, o, tg, k),
                o,
                tg[k],
            ).1,
    decreases m,
{
    if m == 0 {
        assert(tg.take(0) =~= Seq::<Target>::empty());
    } else {
        lemma_all_actions(lines, o, tg, m - 1);
        lemma_all_step(lines, o, tg, m - 1);
    }
}

/// Reconciling targets one after another keeps the file's look to every
/// target not among them. This holds for targets yard can write, none of
/// which the file holds unmarked.
#[verifier::spinoff_prover]
#[verifier::rlimit(40)]
proof fn lemma_views_kept(lines: Seq<Seq<char>>, o: Seq<Seq<char>>, tg: Seq<Target>, k: int, m1: int, m2: int)
    requires
        targets_ok(tg),
        forall|j: int| 0 <= j < tg.len() ==> !attaches_marker(lines, #[trigger] tg[j]),
        0 <= m1 <= m2 <= tg.len(),
        0 <= k < tg.len(),
        !(m1 <= k < m2),
    ensures
        same_view(state(lines, o, tg, m1), state(lines, o, tg, m2), tg[k]),
    decreases m2,
{
    if m2 > m1 {
        lemma_views_kept(lines, o, tg, k, m1, m2 - 1);
        let j = m2 - 1;
        lemma_views_kept(lines, o, tg, j, 0, j);
        assert(tg.take(0) =~= Seq::<Target>::empty());
        assert(state(lines, o, tg, 0) == lines);
        lemma_same_view_action(lines, state(lines, o, tg, j), o, tg[j]);
        lemma_all_step(lines, o, tg, j);
        assert(tg[j].0 != tg[k].0 || tg[j].1 != tg[k].1);
        lemma_step_view(state(lines, o, tg, j), o, tg[j], tg[k]);
    }
}

/// What a second pass reports of each target: [`settled`] of the first.
pub open spec fn settled_all(acts: Seq<Action>, tg: Seq<Target>) -> Seq<Action> {
    Seq::new(acts.len(), |k: int| settled(acts[k], key_path_of(tg[k])))
}

/// Reconciling one target again, in a file that looks to it as the file
/// after the first pass does, leaves that file as it is and reports the
/// target settled.
#[verifier::spinoff_prover]
#[verifier::rlimit(40)]
proof fn lemma_second_target(lines: Seq<Seq<char>>, o: Seq<Seq<char>>, tg: Seq<Target>, f: Seq<Seq<char>>, k: int)
    requires
        targets_ok(tg),
        forall|j: int| 0 <= j < tg.len() ==> !attaches_marker(lines, #[trigger] tg[j]),
        same_view(state(lines, o, tg, tg.len() as int), f, tg[k]),
        0 <= k < tg.len(),
    ensures
        reconcile_target(f, o, tg[k]) == (
            f,
            settled(reconcile_target(state(lines, o, tg, k), o, tg[k]).1, key_path_of(tg[k])),
        ),
{
    let n = tg.len() as int;
    lemma_all_step(lines, o, tg, k);
    lemma_views_kept(lines, o, tg, k, 0, k);
    assert(tg.take(0) =~= Seq::<Target>::empty());
    assert(state(lines, o, tg, 0) == lines);
    lemma_same_view_action(lines, state(lines, o, tg, k), o, tg[k]);
    law_target_settles(state(lines, o, tg, k), o, tg[k]);
    lemma_views_kept(lines, o, tg, k, k + 1, n);
    let sk = state(lines, o, tg, k + 1);
    assert(same_view(sk, f, tg[k]));
    lemma_same_view_action(sk, f, o, tg[k]);
}

/// Reconciling the targets again, in a file that looks to each target as
/// the file after the first pass does, leaves it as it is and reports each
/// target settled.
proof fn lemma_second_pass(lines: Seq<Seq<char>>, o: Seq<Seq<char>>, tg: Seq<Target>, f: Seq<Seq<char>>, m: int)
    requires
        targets_ok(tg),
        forall|j: int| 0 <= j < tg.len() ==> !attaches_marker(lines, #[trigger] tg[j]),
        forall|j: int|
            0 <= j < tg.len() ==> same_view(state(lines, o, tg, tg.len() as int), f, #[trigger] tg[j]),
        0 <= m <= tg.len(),
    ensures
        reconcile_all(f, o, tg.take(m)) == (f, settled_all(reconcile_all(lines, o, tg.take(m)).1, tg)),
    decreases m,
{
    if m == 0 {
        assert(tg.take(0) =~= Seq::<Target>::empty());
        assert(settled_all(Seq::<Action>::empty(), tg) =~= Seq::<Action>::empty());
    } else {
        let k = m - 1;
        lemma_second_pass(lines, o, tg, f, k);
        lemma_all_step(f, o, tg, k);
        lemma_all_actions(lines, o, tg, m);
        lemma_all_actions(lines, o, tg, k);
        lemma_second_target(lines, o, tg, f, k);
        assert(reconcile_all(f, o, tg.take(m)).1 =~= settled_all(reconcile_all(lines, o, tg.take(m)).1, tg));
    }
}

/// The key of a key line is bare.
proof fn lemma_pline_key_bare(t: Seq<char>)
    ensures
        classify_pline(t) matches PLine::Key { key, .. } ==> bare_key(key),
{
    let i0 = skip_ws(t, 0);
    super::value::lemma_skip_ws_bounds(t, 0);
    let ke = super::lines::key_end(t, i0);
    super::laws::lemma_key_end_chars(t, i0);
    let key = t.subrange(i0, ke);
    if ke > i0 && ke <= t.len() {
        assert forall|m: int| 0 <= m < key.len() implies super::lines::is_key_char(#[trigger] key[m]) by {
            assert(key[m] == t[i0 + m]);
        }
    }
}

/// What removal puts in place of line `j`: nothing or the line itself, or
/// a line `key = <items>` without a marker; it drops or rewrites only keys
/// at paths no target has.
proof fn lemma_removal_piece_shape(l1: Seq<Seq<char>>, tg: Seq<Target>, j: int)
    requires
        0 <= j < l1.len(),
    ensures
        ({
            let piece = removal_at(l1, tg, j).0;
            &&& piece.len() <= 1
            &&& (piece.len() == 0 || piece[0] != l1[j]) ==> (pline_at(l1, j) matches PLine::Key { key, .. }
                && !is_target_path(tg, key_path(section_before(l1, j), key)))
            &&& (piece.len() == 1 && piece[0] != l1[j]) ==> (pline_at(l1, j) matches PLine::Key { key, .. }
                && classify_pline(strip_eol(piece[0])) matches PLine::Key { key: k2, marker, .. } && k2 == key
                && marker is NoMarker)
            &&& (piece.len() == 1 && piece[0] != l1[j]) ==> is_line(piece[0])
            &&& (piece.len() == 0 || piece[0] != l1[j]) == (removal_at(l1, tg, j).1 matches Some(
                Action::Deleted { .. },
            ))
        }),
{
    let piece = removal_at(l1, tg, j).0;
    if piece.len() == 1 {
        match pline_at(l1, j) {
            PLine::Key { key, value: Value::Arr(cur), marker: Marker::Managed(Value::Arr(dv)), .. } => {
                lemma_replacement_reads(l1, j, key, cur, dv);
                if piece[0] != l1[j] {
                    assert(pline_at(l1, j) != classify_pline(strip_eol(piece[0])));
                }
            },
            _ => {},
        }
    }
}

/// The line removal leaves of a managed array with items the user added
/// reads as that key, without a marker, and is one line.
proof fn lemma_replacement_reads(l1: Seq<Seq<char>>, j: int, key: Seq<char>, cur: Seq<Seq<char>>, dv: Seq<Seq<char>>)
    requires
        0 <= j < l1.len(),
        pline_at(l1, j) matches PLine::Key { key: k, value: Value::Arr(c), marker: Marker::Managed(Value::Arr(d)), .. }
            && k == key && c == cur && d == dv,
    ensures
        classify_pline(strip_eol(bare_line(key, Value::Arr(without(cur, dv))))) matches PLine::Key {
            key: k2,
            marker: Marker::NoMarker,
            ..
        } && k2 == key,
        is_line(bare_line(key, Value::Arr(without(cur, dv)))),
{
    lemma_pline_key_bare(strip_eol(l1[j]));
    super::settle::lemma_key_value_plain(strip_eol(l1[j]));
    let items = without(cur, dv);
    super::laws::lemma_without(cur, dv);
    assert forall|m: int| 0 <= m < items.len() implies plain_text(#[trigger] items[m]) by {
        assert(items.contains(items[m]));
        let q = choose|q: int| 0 <= q < cur.len() && cur[q] == items[m];
        let v = Value::Arr(cur);
        assert(v->Arr_0[q] == cur[q]);
    }
    law_bare_line_reads_back(key, Value::Arr(items));
    super::roundtrip::lemma_bare_line_is_line(key, Value::Arr(items));
}

/// Removal keeps every table: the lines it has written so far end in the
/// table where the lines it has read end.
#[verifier::spinoff_prover]
#[verifier::rlimit(40)]
proof fn lemma_removal_sections(l1: Seq<Seq<char>>, tg: Seq<Target>, n: int)
    requires
        0 <= n <= l1.len(),
    ensures
        section_before(removal_upto(l1, tg, n).0, removal_upto(l1, tg, n).0.len() as int) == section_before(
            l1,
            n,
        ),
    decreases n,
{
    if n > 0 {
        let j = n - 1;
        lemma_removal_sections(l1, tg, j);
        let p = removal_upto(l1, tg, j).0;
        let piece = removal_at(l1, tg, j).0;
        let q = removal_upto(l1, tg, n).0;
        assert(q == p + piece);
        lemma_removal_piece_shape(l1, tg, j);
        lemma_removal_prefix(p, piece);
        assert(section_before(q, p.len() as int) == section_before(l1, j));
        if piece.len() == 0 {
            assert(q =~= p);
            assert(pline_at(l1, j) is Key);
            assert(section_before(l1, n) == section_before(l1, j));
        } else {
            let x = piece[0];
            assert(q[p.len() as int] == x);
            assert(q.len() == p.len() + 1);
            assert(pline_at(q, p.len() as int) == classify_pline(strip_eol(x)));
            if x == l1[j] {
                assert(pline_at(q, p.len() as int) == pline_at(l1, j));
            } else {
                assert(pline_at(l1, j) is Key);
                assert(pline_at(q, p.len() as int) is Key);
            }
        }
    }
}

/// Lines added after `p` change nothing of what comes before them.
proof fn lemma_removal_prefix(p: Seq<Seq<char>>, piece: Seq<Seq<char>>)
    ensures
        forall|m: int| 0 <= m <= p.len() ==> #[trigger] section_before(p + piece, m) == section_before(p, m),
        forall|m: int| 0 <= m < p.len() ==> #[trigger] pline_at(p + piece, m) == pline_at(p, m),
{
    let q = p + piece;
    assert forall|m: int| 0 <= m < p.len() implies #[trigger] pline_at(q, m) == pline_at(p, m) by {
        assert(q[m] == p[m]);
    }
    assert forall|m: int| 0 <= m <= p.len() implies #[trigger] section_before(q, m) == section_before(p, m) by {
        super::laws::lemma_section_same_prefix(q, p, m);
    }
}

/// Removal keeps the file's look to every target: lines it drops or
/// rewrites are keys at paths no target has, and it keeps every table.
#[verifier::spinoff_prover]
#[verifier::rlimit(40)]
proof fn lemma_removal_view_upto(l1: Seq<Seq<char>>, tg: Seq<Target>, k: int, n: int)
    requires
        0 <= k < tg.len(),
        0 <= n <= l1.len(),
    ensures
        ({
            let p = removal_upto(l1, tg, n).0;
            let t = tg[k];
            let fa = find_key_from(l1, t.0, t.1, 0);
            &&& 0 <= fa < n ==> find_key_from(p, t.0, t.1, 0) >= 0 && pline_at(p, find_key_from(p, t.0, t.1, 0))
                == pline_at(l1, fa)
            &&& !(0 <= fa < n) ==> forall|m: int| 0 <= m < p.len() ==> !#[trigger] is_key_line(p, m, t.0, t.1)
        }),
    decreases n,
{
    let t = tg[k];
    let fa = find_key_from(l1, t.0, t.1, 0);
    lemma_find_key_from(l1, t.0, t.1, 0);
    super::settle::lemma_find_first(l1, t.0, t.1, 0);
    if n > 0 {
        let j = n - 1;
        lemma_removal_view_upto(l1, tg, k, j);
        lemma_removal_sections(l1, tg, j);
        let p = removal_upto(l1, tg, j).0;
        let piece = removal_at(l1, tg, j).0;
        let q = removal_upto(l1, tg, n).0;
        assert(q == p + piece);
        lemma_removal_piece_shape(l1, tg, j);
        lemma_removal_prefix(p, piece);
        assert forall|m: int| 0 <= m < p.len() implies #[trigger] is_key_line(q, m, t.0, t.1) == is_key_line(
            p,
            m,
            t.0,
            t.1,
        ) by {}
        assert(is_target_path(tg, key_path(t.0, t.1))) by {
            assert(key_path(tg[k].0, tg[k].1) == key_path(t.0, t.1));
        }
        if piece.len() == 1 {
            assert(q[p.len() as int] == piece[0]);
        }
        if 0 <= fa < j {
            let fp = find_key_from(p, t.0, t.1, 0);
            lemma_find_key_from(p, t.0, t.1, 0);
            super::settle::lemma_find_first(p, t.0, t.1, 0);
            assert(is_key_line(q, fp, t.0, t.1));
            assert forall|m: int| 0 <= m < fp implies !#[trigger] is_key_line(q, m, t.0, t.1) by {
                assert(!is_key_line(p, m, t.0, t.1));
            }
            lemma_find_key_is(q, t.0, t.1, 0, fp);
        } else if fa == j {
            assert(piece == seq![l1[j]]);
            assert(is_key_line(q, p.len() as int, t.0, t.1));
            lemma_find_key_is(q, t.0, t.1, 0, p.len() as int);
        } else {
            if fa < 0 {
                lemma_find_key_absent(l1, t.0, t.1, 0);
            }
            assert(!is_key_line(l1, j, t.0, t.1));
            if piece.len() == 1 {
                assert(!is_key_line(q, p.len() as int, t.0, t.1));
            }
        }
    }
}

/// Every piece of `ls` is one line.
pub open spec fn all_lines(ls: Seq<Seq<char>>) -> bool {
    forall|k: int| 0 <= k < ls.len() ==> is_line(#[trigger] ls[k])
}

/// Giving a line the newline it lacks keeps it one line.
proof fn lemma_close_lines(a: Seq<Seq<char>>, q: int)
    requires
        all_lines(a),
    ensures
        all_lines(close_line(a, q)),
{
    lemma_close_line(a, q);
    assert forall|k: int| 0 <= k < a.len() implies is_line(#[trigger] close_line(a, q)[k]) by {
        let x = a[k];
        assert(is_line(x));
        if close_line(a, q)[k] != x {
            let y = x.push('\n');
            assert(close_line(a, q)[k] == y);
            assert forall|m: int| 0 <= m < y.len() - 1 implies y[m] != '\n' by {
                assert(y[m] == x[m]);
            }
        }
    }
}

/// Reconciling a target yard can write, which the file does not hold
/// unmarked, keeps every piece of the file one line.
#[verifier::spinoff_prover]
#[verifier::rlimit(40)]
proof fn lemma_target_lines(a: Seq<Seq<char>>, o: Seq<Seq<char>>, t2: Target)
    requires
        all_lines(a),
        is_valid_path(t2.0),
        bare_key(t2.1),
        plain_value(t2.2),
        !attaches_marker(a, t2),
    ensures
        all_lines(reconcile_target(a, o, t2).0),
{
    let (section, key, want) = t2;
    let b = reconcile_target(a, o, t2).0;
    let i = find_key_from(a, section, key, 0);
    super::roundtrip::lemma_managed_line_is_line(key, want, want);
    if i >= 0 {
        lemma_find_key_from(a, section, key, 0);
        super::settle::lemma_key_value_plain(strip_eol(a[i]));
        match pline_at(a, i) {
            PLine::Key { value, marker, .. } => {
                match (want, value, marker) {
                    (Value::Arr(w), Value::Arr(cur), Marker::Managed(Value::Arr(dv))) => {
                        assert forall|k: int| 0 <= k < w.len() implies plain_text(#[trigger] w[k]) by {
                            let v = Value::Arr(w);
                            assert(plain_value(v));
                            assert(v->Arr_0[k] == w[k]);
                        }
                        lemma_new_items_plain(w, cur, dv);
                        super::roundtrip::lemma_managed_line_is_line(key, Value::Arr(add_missing(w, without(cur, dv))), want);
                    },
                    _ => {},
                }
            },
            _ => {},
        }
        if b != a {
            assert(b == a.update(i, b[i]));
            assert(is_line(b[i]));
            assert forall|k: int| 0 <= k < b.len() implies is_line(#[trigger] b[k]) by {
                if k != i {
                    assert(b[k] == a[k]);
                }
            }
        }
    } else if b != a {
        let ml = managed_line(key, want, want);
        assert(b == insert_key(a, section, ml));
        let h = header_from(a, section, 0);
        super::laws::lemma_header_from(a, section, 0);
        if h >= 0 {
            let q = section_last(a, h + 1, h) + 1;
            if h + 1 < a.len() {
                super::laws::lemma_section_last(a, h + 1, h);
            }
            let c = close_line(a, q);
            lemma_close_lines(a, q);
            lemma_close_line(a, q);
            assert(b == c.insert(q, ml));
            assert forall|k: int| 0 <= k < b.len() implies is_line(#[trigger] b[k]) by {
                if k < q {
                    assert(b[k] == c[k]);
                } else if k > q {
                    assert(b[k] == c[k - 1]);
                }
            }
        } else {
            let c = close_line(a, a.len() as int);
            lemma_close_lines(a, a.len() as int);
            lemma_close_line(a, a.len() as int);
            lemma_header_line(section);
            super::roundtrip::lemma_blank_line();
            let tail = new_table_tail(a, section, ml);
            assert(b == c + tail);
            assert forall|k: int| 0 <= k < b.len() implies is_line(#[trigger] b[k]) by {
                if k < c.len() {
                    assert(b[k] == c[k]);
                } else if k == b.len() - 1 {
                    assert(b[k] == ml);
                } else if k == b.len() - 2 {
                    assert(b[k] == header_line(section));
                } else {
                    assert(b[k] == seq!['\n']);
                }
            }
        }
    }
}

/// Reconciling targets yard can write, none of which the file holds
/// unmarked, keeps every piece of the file one line.
proof fn lemma_all_lines(lines: Seq<Seq<char>>, o: Seq<Seq<char>>, tg: Seq<Target>, m: int)
    requires
        all_lines(lines),
        targets_ok(tg),
        forall|j: int| 0 <= j < tg.len() ==> !attaches_marker(lines, #[trigger] tg[j]),
        0 <= m <= tg.len(),
    ensures
        all_lines(state(lines, o, tg, m)),
    decreases m,
{
    if m == 0 {
        assert(tg.take(0) =~= Seq::<Target>::empty());
    } else {
        let j = m - 1;
        lemma_all_lines(lines, o, tg, j);
        lemma_views_kept(lines, o, tg, j, 0, j);
        assert(tg.take(0) =~= Seq::<Target>::empty());
        assert(state(lines, o, tg, 0) == lines);
        lemma_same_view_action(lines, state(lines, o, tg, j), o, tg[j]);
        lemma_all_step(lines, o, tg, j);
        lemma_target_lines(state(lines, o, tg, j), o, tg[j]);
    }
}

/// Removal keeps every piece of the file one line.
proof fn lemma_removal_lines(l1: Seq<Seq<char>>, tg: Seq<Target>, n: int)
    requires
        all_lines(l1),
        0 <= n <= l1.len(),
    ensures
        all_lines(removal_upto(l1, tg, n).0),
    decreases n,
{
    if n > 0 {
        let j = n - 1;
        lemma_removal_lines(l1, tg, j);
        lemma_removal_piece_shape(l1, tg, j);
        let p = removal_upto(l1, tg, j).0;
        let piece = removal_at(l1, tg, j).0;
        let q = removal_upto(l1, tg, n).0;
        assert(q == p + piece);
        assert forall|k: int| 0 <= k < q.len() implies is_line(#[trigger] q[k]) by {
            if k < p.len() {
                assert(q[k] == p[k]);
            } else {
                assert(q[k] == piece[0]);
            }
        }
    }
}

/// The omit argument a line holds, if any.
pub open spec fn omit_part(p: PLine) -> Seq<Seq<char>> {
    match p {
        PLine::Omit(arg) => seq![arg],
        _ => Seq::<Seq<char>>::empty(),
    }
}

/// Files whose lines hold the same omit arguments, in order, give the same
/// omit arguments.
proof fn lemma_omit_same(x: Seq<Seq<char>>, y: Seq<Seq<char>>, n: int)
    requires
        0 <= n <= x.len(),
        n <= y.len(),
        forall|k: int| 0 <= k < n ==> #[trigger] omit_part(pline_at(x, k)) == omit_part(pline_at(y, k)),
    ensures
        omit_args(x, n) == omit_args(y, n),
    decreases n,
{
    if n > 0 {
        lemma_omit_same(x, y, n - 1);
        lemma_omit_step(x, n);
        lemma_omit_step(y, n);
        assert(omit_part(pline_at(x, n - 1)) == omit_part(pline_at(y, n - 1)));
    }
}

/// The omit arguments of the first `n` lines, one line at a time.
proof fn lemma_omit_step(x: Seq<Seq<char>>, n: int)
    requires
        0 < n <= x.len(),
    ensures
        omit_args(x, n) == omit_args(x, n - 1) + omit_part(pline_at(x, n - 1)),
{
    match pline_at(x, n - 1) {
        PLine::Omit(arg) => {
            assert(omit_args(x, n - 1).push(arg) =~= omit_args(x, n - 1) + seq![arg]);
        },
        _ => {
            assert(omit_args(x, n - 1) + Seq::<Seq<char>>::empty() =~= omit_args(x, n - 1));
        },
    }
}

/// The omit arguments of two files put together.
proof fn lemma_omit_concat(a: Seq<Seq<char>>, b: Seq<Seq<char>>)
    ensures
        omit_args(a + b, (a + b).len() as int) == omit_args(a, a.len() as int) + omit_args(b, b.len() as int),
    decreases b.len(),
{
    if b.len() == 0 {
        assert(a + b =~= a);
        assert(omit_args(a, a.len() as int) + omit_args(b, 0) =~= omit_args(a, a.len() as int));
    } else {
        let bf = b.drop_last();
        let n = (a + b).len() as int;
        lemma_omit_concat(a, bf);
        lemma_omit_step(a + b, n);
        lemma_omit_step(b, b.len() as int);
        assert forall|k: int| 0 <= k < n - 1 implies #[trigger] omit_part(pline_at(a + b, k)) == omit_part(
            pline_at(a + bf, k),
        ) by {
            assert((a + b)[k] == (a + bf)[k]);
        }
        lemma_omit_same(a + b, a + bf, n - 1);
        assert forall|k: int| 0 <= k < bf.len() implies #[trigger] omit_part(pline_at(b, k)) == omit_part(
            pline_at(bf, k),
        ) by {
            assert(b[k] == bf[k]);
        }
        lemma_omit_same(b, bf, bf.len() as int);
        assert((a + b)[n - 1] == b[b.len() - 1]);
        assert(omit_args(a, a.len() as int) + omit_args(bf, bf.len() as int) + omit_part(pline_at(b, b.len() - 1))
            =~= omit_args(a, a.len() as int) + (omit_args(bf, bf.len() as int) + omit_part(pline_at(b, b.len() - 1))));
    }
}

/// One line that holds no omit argument gives none.
proof fn lemma_omit_one(x: Seq<char>)
    requires
        !(classify_pline(strip_eol(x)) is Omit),
    ensures
        omit_args(seq![x], 1) == Seq::<Seq<char>>::empty(),
{
    lemma_omit_step(seq![x], 1);
    assert(pline_at(seq![x], 0) == classify_pline(strip_eol(x)));
}

/// Closing a line keeps the file's omit arguments.
proof fn lemma_close_omits(a: Seq<Seq<char>>, q: int)
    ensures
        omit_args(close_line(a, q), a.len() as int) == omit_args(a, a.len() as int),
        close_line(a, q).len() == a.len(),
{
    let c = close_line(a, q);
    lemma_close_line(a, q);
    assert forall|k: int| 0 <= k < a.len() implies #[trigger] omit_part(pline_at(c, k)) == omit_part(
        pline_at(a, k),
    ) by {
        assert(strip_eol(c[k]) == strip_eol(a[k]));
    }
    lemma_omit_same(c, a, a.len() as int);
}

/// Inserting a line that holds no omit argument keeps the omit arguments.
proof fn lemma_insert_omits(c: Seq<Seq<char>>, q: int, x: Seq<char>)
    requires
        0 <= q <= c.len(),
        !(classify_pline(strip_eol(x)) is Omit),
    ensures
        omit_args(c.insert(q, x), c.len() + 1int) == omit_args(c, c.len() as int),
{
    lemma_omit_one(x);
    assert(c =~= c.take(q) + c.skip(q));
    assert(c.insert(q, x) =~= c.take(q) + (seq![x] + c.skip(q)));
    lemma_omit_concat(c.take(q), c.skip(q));
    lemma_omit_concat(c.take(q), seq![x] + c.skip(q));
    lemma_omit_concat(seq![x], c.skip(q));
    assert(Seq::<Seq<char>>::empty() + omit_args(c.skip(q), c.skip(q).len() as int) =~= omit_args(
        c.skip(q),
        c.skip(q).len() as int,
    ));
}

/// The lines of a new table hold no omit argument.
proof fn lemma_tail_omits(a: Seq<Seq<char>>, s: Seq<char>, x: Seq<char>)
    requires
        is_valid_path(s),
        !(classify_pline(strip_eol(x)) is Omit),
    ensures
        omit_args(new_table_tail(a, s, x), new_table_tail(a, s, x).len() as int) == Seq::<Seq<char>>::empty(),
{
    let tail = new_table_tail(a, s, x);
    lemma_header_line(s);
    super::roundtrip::lemma_blank_line();
    lemma_omit_one(header_line(s));
    lemma_omit_one(x);
    lemma_omit_concat(seq![header_line(s)], seq![x]);
    assert(seq![header_line(s)] + seq![x] =~= seq![header_line(s), x]);
    if a.len() > 0 {
        lemma_omit_one(seq!['\n']);
        lemma_omit_concat(seq![seq!['\n']], seq![header_line(s), x]);
        assert(tail =~= seq![seq!['\n']] + seq![header_line(s), x]);
    } else {
        assert(tail =~= seq![header_line(s), x]);
    }
}

/// Adding a key the file lacks keeps the file's omit arguments.
#[verifier::spinoff_prover]
#[verifier::rlimit(40)]
proof fn lemma_added_omits(a: Seq<Seq<char>>, section: Seq<char>, ml: Seq<char>)
    requires
        is_valid_path(section),
        !(classify_pline(strip_eol(ml)) is Omit),
    ensures
        omit_args(insert_key(a, section, ml), insert_key(a, section, ml).len() as int) == omit_args(
            a,
            a.len() as int,
        ),
{
    let b = insert_key(a, section, ml);
    let h = header_from(a, section, 0);
    super::laws::lemma_header_from(a, section, 0);
    if h >= 0 {
        let q = section_last(a, h + 1, h) + 1;
        if h + 1 < a.len() {
            super::laws::lemma_section_last(a, h + 1, h);
        }
        lemma_close_omits(a, q);
        lemma_insert_omits(close_line(a, q), q, ml);
    } else {
        let c = close_line(a, a.len() as int);
        lemma_close_omits(a, a.len() as int);
        lemma_tail_omits(a, section, ml);
        lemma_omit_concat(c, new_table_tail(a, section, ml));
        assert(b == c + new_table_tail(a, section, ml));
        assert(omit_args(c, c.len() as int) + Seq::<Seq<char>>::empty() =~= omit_args(c, c.len() as int));
    }
}

/// Reconciling a target yard can write, which the file does not hold
/// unmarked, keeps the file's omit arguments.
#[verifier::spinoff_prover]
#[verifier::rlimit(40)]
proof fn lemma_target_omits(a: Seq<Seq<char>>, o: Seq<Seq<char>>, t2: Target)
    requires
        is_valid_path(t2.0),
        bare_key(t2.1),
        plain_value(t2.2),
        !attaches_marker(a, t2),
    ensures
        omit_args(reconcile_target(a, o, t2).0, reconcile_target(a, o, t2).0.len() as int) == omit_args(
            a,
            a.len() as int,
        ),
{
    let (section, key, want) = t2;
    let b = reconcile_target(a, o, t2).0;
    let i = find_key_from(a, section, key, 0);
    if b != a {
        if i >= 0 {
            lemma_found_rewrite(a, o, t2);
            lemma_find_key_from(a, section, key, 0);
            assert forall|k: int| 0 <= k < a.len() implies #[trigger] omit_part(pline_at(b, k)) == omit_part(
                pline_at(a, k),
            ) by {
                if k != i {
                    assert(b[k] == a[k]);
                }
            }
            lemma_omit_same(b, a, a.len() as int);
        } else {
            let ml = managed_line(key, want, want);
            lemma_written_key(key, want, want);
            assert(b == insert_key(a, section, ml));
            lemma_added_omits(a, section, ml);
        }
    }
}

/// Reconciling targets yard can write, none of which the file holds
/// unmarked, keeps the file's omit arguments.
proof fn lemma_all_omits(lines: Seq<Seq<char>>, o: Seq<Seq<char>>, tg: Seq<Target>, m: int)
    requires
        targets_ok(tg),
        forall|j: int| 0 <= j < tg.len() ==> !attaches_marker(lines, #[trigger] tg[j]),
        0 <= m <= tg.len(),
    ensures
        omit_args(state(lines, o, tg, m), state(lines, o, tg, m).len() as int) == omit_args(
            lines,
            lines.len() as int,
        ),
    decreases m,
{
    if m == 0 {
        assert(tg.take(0) =~= Seq::<Target>::empty());
    } else {
        let j = m - 1;
        lemma_all_omits(lines, o, tg, j);
        lemma_views_kept(lines, o, tg, j, 0, j);
        assert(tg.take(0) =~= Seq::<Target>::empty());
        assert(state(lines, o, tg, 0) == lines);
        lemma_same_view_action(lines, state(lines, o, tg, j), o, tg[j]);
        lemma_all_step(lines, o, tg, j);
        lemma_target_omits(state(lines, o, tg, j), o, tg[j]);
    }
}

/// Removal keeps the file's omit arguments.
#[verifier::spinoff_prover]
#[verifier::rlimit(40)]
proof fn lemma_removal_omits(l1: Seq<Seq<char>>, tg: Seq<Target>, n: int)
    requires
        0 <= n <= l1.len(),
    ensures
        omit_args(removal_upto(l1, tg, n).0, removal_upto(l1, tg, n).0.len() as int) == omit_args(l1, n),
    decreases n,
{
    if n > 0 {
        let j = n - 1;
        lemma_removal_omits(l1, tg, j);
        lemma_removal_piece_shape(l1, tg, j);
        let p = removal_upto(l1, tg, j).0;
        let piece = removal_at(l1, tg, j).0;
        assert(removal_upto(l1, tg, n).0 == p + piece);
        lemma_omit_concat(p, piece);
        lemma_omit_step(l1, n);
        if piece.len() == 0 {
            assert(omit_args(piece, 0) == Seq::<Seq<char>>::empty());
            assert(omit_args(p, p.len() as int) + Seq::<Seq<char>>::empty() =~= omit_args(p, p.len() as int));
        } else {
            lemma_omit_step(piece, 1);
            assert(piece =~= seq![piece[0]]);
            assert(omit_args(piece, 0) == Seq::<Seq<char>>::empty());
            assert(Seq::<Seq<char>>::empty() + omit_part(pline_at(piece, 0)) =~= omit_part(pline_at(piece, 0)));
            if piece[0] == l1[j] {
                assert(pline_at(piece, 0) == pline_at(l1, j));
            }
        }
    }
}

/// What removal reports a second time: all it reported but deletions.
pub open spec fn without_deletions(acts: Seq<Action>) -> Seq<Action>
    decreases acts.len(),
{
    if acts.len() == 0 {
        Seq::<Action>::empty()
    } else {
        let before = without_deletions(acts.drop_last());
        if acts.last() is Deleted {
            before
        } else {
            before.push(acts.last())
        }
    }
}

/// Removal acts alike on the lines two files share at their start.
proof fn lemma_removal_prefix_same(a: Seq<Seq<char>>, b: Seq<Seq<char>>, tg: Seq<Target>, n: int)
    requires
        0 <= n <= a.len(),
        n <= b.len(),
        forall|k: int| 0 <= k < n ==> #[trigger] a[k] == b[k],
    ensures
        removal_upto(a, tg, n) == removal_upto(b, tg, n),
    decreases n,
{
    if n > 0 {
        lemma_removal_prefix_same(a, b, tg, n - 1);
        assert forall|k: int| 0 <= k < n - 1 implies #[trigger] pline_at(a, k) == pline_at(b, k) by {
            assert(a[k] == b[k]);
        }
        super::laws::lemma_section_same_prefix(a, b, n - 1);
        assert(a[n - 1] == b[n - 1]);
        assert(removal_at(a, tg, n - 1) == removal_at(b, tg, n - 1));
    }
}

/// Removing again from what removal left keeps every line and reports all
/// the first removal reported but its deletions, where it reported no
/// conflict.
#[verifier::spinoff_prover]
#[verifier::rlimit(40)]
proof fn lemma_second_removal(l1: Seq<Seq<char>>, tg: Seq<Target>, n: int)
    requires
        0 <= n <= l1.len(),
        forall|j: int| 0 <= j < l1.len() ==> !(#[trigger] removal_at(l1, tg, j).1 matches Some(Action::Conflict { .. })),
    ensures
        ({
            let (p, acts) = removal_upto(l1, tg, n);
            removal_upto(p, tg, p.len() as int) == (p, without_deletions(acts))
        }),
    decreases n,
{
    if n == 0 {
        assert(without_deletions(Seq::<Action>::empty()) == Seq::<Action>::empty());
    } else {
        let j = n - 1;
        lemma_second_removal(l1, tg, j);
        let (p, acts) = removal_upto(l1, tg, j);
        let (piece, act) = removal_at(l1, tg, j);
        let q = p + piece;
        assert(removal_upto(l1, tg, n).0 == q);
        lemma_removal_piece_shape(l1, tg, j);
        lemma_removal_sections(l1, tg, j);
        lemma_removal_prefix(p, piece);
        assert(!(removal_at(l1, tg, j).1 matches Some(Action::Conflict { .. })));
        if piece.len() == 0 {
            assert(q =~= p);
            assert(act matches Some(Action::Deleted { .. }));
            let acts2 = removal_upto(l1, tg, n).1;
            assert(acts2 == acts.push(act->Some_0));
            assert(acts2.drop_last() =~= acts);
        } else {
            assert forall|k: int| 0 <= k < p.len() implies #[trigger] q[k] == p[k] by {}
            lemma_removal_prefix_same(q, p, tg, p.len() as int);
            assert(q[p.len() as int] == piece[0]);
            assert(section_before(q, p.len() as int) == section_before(l1, j));
            let acts2 = removal_upto(l1, tg, n).1;
            if piece[0] == l1[j] {
                assert(pline_at(q, p.len() as int) == pline_at(l1, j));
                assert(removal_at(q, tg, p.len() as int) == removal_at(l1, tg, j));
                match act {
                    Some(x) => {
                        assert(acts2 == acts.push(x));
                        assert(acts2.drop_last() =~= acts);
                        assert(!(x is Deleted));
                    },
                    None => {},
                }
            } else {
                assert(removal_at(q, tg, p.len() as int) == (seq![piece[0]], Option::<Action>::None));
                assert(act matches Some(Action::Deleted { .. }));
                assert(acts2 == acts.push(act->Some_0));
                assert(acts2.drop_last() =~= acts);
            }
            assert(p + seq![piece[0]] =~= q);
        }
    }
}

/// The targets of a writable intent are targets yard can write.
proof fn lemma_intent_targets(d: super::PixiIntent)
    requires
        intent_ok(d),
    ensures
        targets_ok(targets(d)),
{
    let tg = targets(d);
    let ws = ws_targets(d);
    let deps = dep_targets(d);
    super::roundtrip::lemma_targets_split(d);
    super::roundtrip::lemma_targets_ok(d);
    super::roundtrip::lemma_names();
    assert forall|i: int| 0 <= i < tg.len() implies is_valid_path((#[trigger] tg[i]).0) && bare_key(tg[i].1)
        && plain_value(tg[i].2) by {
        if i < ws.len() {
            assert(tg[i] == ws[i]);
        } else {
            assert(tg[i] == deps[i - ws.len()]);
        }
    }
    assert forall|i: int, j: int| 0 <= i < tg.len() && 0 <= j < tg.len() && i != j implies ((#[trigger] tg[i]).0
        != (#[trigger] tg[j]).0 || tg[i].1 != tg[j].1) by {
        if i < ws.len() && j < ws.len() {
            assert(tg[i] == ws[i] && tg[j] == ws[j]);
            if i < j {
                assert(ws[i].1 != ws[j].1);
            } else {
                assert(ws[j].1 != ws[i].1);
            }
        } else if i >= ws.len() && j >= ws.len() {
            assert(tg[i] == deps[i - ws.len()] && tg[j] == deps[j - ws.len()]);
            if i < j {
                assert(deps[i - ws.len()].1 != deps[j - ws.len()].1);
            } else {
                assert(deps[j - ws.len()].1 != deps[i - ws.len()].1);
            }
        } else if i < ws.len() {
            assert(tg[i] == ws[i] && tg[j] == deps[j - ws.len()]);
        } else {
            assert(tg[j] == ws[j] && tg[i] == deps[i - ws.len()]);
        }
    }
}

/// Removal keeps the file's look to every target.
proof fn lemma_removal_view(l1: Seq<Seq<char>>, tg: Seq<Target>, k: int)
    requires
        0 <= k < tg.len(),
    ensures
        same_view(l1, removal_upto(l1, tg, l1.len() as int).0, tg[k]),
{
    let t = tg[k];
    let l2 = removal_upto(l1, tg, l1.len() as int).0;
    lemma_removal_view_upto(l1, tg, k, l1.len() as int);
    lemma_find_key_from(l1, t.0, t.1, 0);
    if find_key_from(l1, t.0, t.1, 0) < 0 {
        super::roundtrip::lemma_find_key_none(l2, t.0, t.1, 0);
    }
}

/// Every action removal reports is among the actions it reports in all.
proof fn lemma_removal_acts_in(l1: Seq<Seq<char>>, tg: Seq<Target>, n: int, j: int)
    requires
        0 <= j < n <= l1.len(),
        removal_at(l1, tg, j).1 is Some,
    ensures
        removal_upto(l1, tg, n).1.contains(removal_at(l1, tg, j).1->Some_0),
    decreases n,
{
    let x = removal_at(l1, tg, j).1->Some_0;
    let prev = removal_upto(l1, tg, n - 1).1;
    let acts = removal_upto(l1, tg, n).1;
    if j == n - 1 {
        assert(acts == prev.push(x));
        assert(acts[prev.len() as int] == x);
    } else {
        lemma_removal_acts_in(l1, tg, n - 1, j);
        let k = choose|k: int| 0 <= k < prev.len() && prev[k] == x;
        match removal_at(l1, tg, n - 1).1 {
            Some(y) => {
                assert(acts == prev.push(y));
                assert(acts[k] == prev[k]);
            },
            None => {},
        }
    }
}

/// What a successful plan of a `pixi.toml` is made of.
pub(crate) proof fn lemma_plan_ok(d: super::PixiIntent, c: Seq<char>)
    requires
        plan_pixi(d, Some(c)) is Ok,
    ensures
        ({
            let lines = lines_of(c);
            let tg = targets(d);
            let omits = omit_args(lines, lines.len() as int);
            let (l1, a1) = reconcile_all(lines, omits, tg);
            let (l2, a2) = removal_upto(l1, tg, l1.len() as int);
            let (a3, w) = omit_report(omits, tg);
            plan_pixi(d, Some(c))->Ok_0 == crate::adaptors::Outcome {
                contents: Some(concat(l2)),
                actions: a1 + a2 + a3,
                warnings: w,
            }
        }),
{
}

/// Applying the same intent again to the `pixi.toml` yard has just
/// written keeps the file as it is: every key the first apply wrote is
/// reported in sync, every other target as before, removal repeats all it
/// reported but its deletions, and the warnings are the same. This holds
/// for intents yard can write (plain texts, bare distinct dependency
/// names) where the first apply reported no conflict and attached no
/// marker to a key it found unmarked (how such a key compares with the
/// recorded default is for the next apply to report), and where the TOML
/// parser accepts the written file.
#[verifier::spinoff_prover]
#[verifier::rlimit(40)]
pub proof fn law_second_apply_settles(d: super::PixiIntent, existing: Seq<char>)
    requires
        intent_ok(d),
        plan_pixi(d, Some(existing)) is Ok,
        forall|k: int|
            0 <= k < plan_pixi(d, Some(existing))->Ok_0.actions.len() ==> !(#[trigger] plan_pixi(
                d,
                Some(existing),
            )->Ok_0.actions[k] is Conflict),
        forall|j: int| 0 <= j < targets(d).len() ==> !attaches_marker(lines_of(existing), #[trigger] targets(d)[j]),
        plan_pixi(d, plan_pixi(d, Some(existing))->Ok_0.contents) is Ok,
    ensures
        ({
            let first = plan_pixi(d, Some(existing))->Ok_0;
            let second = plan_pixi(d, first.contents)->Ok_0;
            let lines = lines_of(existing);
            let tg = targets(d);
            let omits = omit_args(lines, lines.len() as int);
            let (l1, a1) = reconcile_all(lines, omits, tg);
            let a2 = removal_upto(l1, tg, l1.len() as int).1;
            let a3 = omit_report(omits, tg).0;
            &&& second.contents == first.contents
            &&& second.actions == settled_all(a1, tg) + without_deletions(a2) + a3
            &&& second.warnings == first.warnings
        }),
{
    let lines = lines_of(existing);
    let tg = targets(d);
    let n = tg.len() as int;
    let omits = omit_args(lines, lines.len() as int);
    let (l1, a1) = reconcile_all(lines, omits, tg);
    let (l2, a2) = removal_upto(l1, tg, l1.len() as int);
    let (a3, w) = omit_report(omits, tg);
    let first = plan_pixi(d, Some(existing))->Ok_0;
    lemma_plan_ok(d, existing);
    lemma_intent_targets(d);
    assert(tg.take(n) =~= tg);
    assert(state(lines, omits, tg, n) == l1);
    assert(first.contents == Some(concat(l2)));
    assert(first.actions == a1 + a2 + a3);
    crate::text::lemma_lines_from_run(existing, 0);
    assert(all_lines(lines));
    lemma_all_lines(lines, omits, tg, n);
    super::laws::lemma_all_closed(lines, omits, tg);
    lemma_removal_lines(l1, tg, l1.len() as int);
    super::laws::lemma_removal_closed(l1, tg, l1.len() as int);
    assert(line_run(l2));
    crate::text::lemma_lines_of_concat(l2);
    lemma_all_omits(lines, omits, tg, n);
    lemma_removal_omits(l1, tg, l1.len() as int);
    assert(omit_args(l2, l2.len() as int) == omits);
    assert forall|j: int| 0 <= j < tg.len() implies same_view(state(lines, omits, tg, n), l2, #[trigger] tg[j]) by {
        lemma_removal_view(l1, tg, j);
    }
    lemma_second_pass(lines, omits, tg, l2, n);
    assert forall|j: int| 0 <= j < l1.len() implies !(#[trigger] removal_at(l1, tg, j).1 matches Some(
        Action::Conflict { .. },
    )) by {
        if removal_at(l1, tg, j).1 is Some {
            lemma_removal_acts_in(l1, tg, l1.len() as int, j);
            let x = removal_at(l1, tg, j).1->Some_0;
            let k = choose|k: int| 0 <= k < a2.len() && a2[k] == x;
            assert(first.actions[a1.len() + k] == a2[k]);
        }
    }
    lemma_second_removal(l1, tg, l1.len() as int);
    lemma_plan_ok(d, concat(l2));
}

} // verus!
