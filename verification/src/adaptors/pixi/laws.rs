//! What holds of the pixi adaptor across inputs: merging fails exactly when
//! two modules disagree on a scalar; a key that is in sync, overridden,
//! omitted or in conflict is never rewritten; the user's lines survive an
//! apply; a rewritten array keeps the user's items in a canonical order;
//! and a managed line yard writes reads back as written, in sync.
use vstd::prelude::*;

use crate::adaptors::{Action, MergeErr};
use super::lines::{Marker, PLine, classify_pline, is_key_char, key_end, parse_comment, trim_end};
use super::value::{
    Value, is_ws, lemma_parse_value_written, lemma_skip_ws_run, plain_value, render_default,
    render_value, skip_ws,
};
use super::reconcile::{
    Target, close_line, ends_nl, is_blank, is_target_path, find_key_from, header_from, insert_key, is_key_line, pline_at, plan_pixi,
    reconcile_all, reconcile_target, removal_at, removal_upto, section_before, section_last, targets,
};
use crate::text::{closed_but_last, concat, ends_in_newline, is_line, lines_of, strip_eol, strip_newline};
use crate::adaptors::gitignore::add_missing;
use crate::adaptors::gitignore::laws::lemma_add_missing;
use super::{
    DepEntry, MergeState, PixiIntent, dep_index_from, insert_pos_from, merge_contribution,
    merge_deps, merge_pixi,
};

verus! {

/// Every dependency contributed in `cs`, in order.
pub open spec fn all_deps(cs: Seq<(Seq<char>, PixiIntent)>) -> Seq<(Seq<char>, Seq<char>)>
    decreases cs.len(),
{
    if cs.len() == 0 {
        seq![]
    } else {
        all_deps(cs.drop_last()) + cs.last().1.dependencies
    }
}

/// No two entries of `ds` give one dependency different specs.
pub open spec fn deps_agree(ds: Seq<(Seq<char>, Seq<char>)>) -> bool {
    forall|p: int, q: int|
        #![trigger ds[p], ds[q]]
        0 <= p < ds.len() && 0 <= q < ds.len() && ds[p].0 == ds[q].0 ==> ds[p].1 == ds[q].1
}

/// No two contributions set different workspace names.
pub open spec fn names_agree(cs: Seq<(Seq<char>, PixiIntent)>) -> bool {
    forall|i: int, j: int|
        #![trigger cs[i], cs[j]]
        0 <= i < cs.len() && 0 <= j < cs.len() && cs[i].1.workspace_name is Some
            && cs[j].1.workspace_name is Some ==> cs[i].1.workspace_name == cs[j].1.workspace_name
}

/// A merge error names two modules and two different values.
pub open spec fn names_both(e: MergeErr) -> bool {
    e.modules.len() == 2 && e.values.len() == 2 && e.values[0] != e.values[1]
}

/// Some entry of `d` is dependency `k` with spec `v`.
pub open spec fn has_dep(d: Seq<DepEntry>, k: Seq<char>, v: Seq<char>) -> bool {
    exists|e: int| 0 <= e < d.len() && #[trigger] d[e].0 == k && d[e].1 == v
}

/// The merged dependencies `d` hold exactly the contributed `ds`, one entry
/// per dependency.
pub open spec fn represents(d: Seq<DepEntry>, ds: Seq<(Seq<char>, Seq<char>)>) -> bool {
    &&& forall|e: int, f: int| 0 <= e < f < d.len() ==> #[trigger] d[e].0 != #[trigger] d[f].0
    &&& forall|p: int| 0 <= p < ds.len() ==> has_dep(d, #[trigger] ds[p].0, ds[p].1)
    &&& forall|e: int| 0 <= e < d.len() ==> exists|p: int|
        0 <= p < ds.len() && #[trigger] ds[p].0 == #[trigger] d[e].0 && ds[p].1 == d[e].1
}

/// What [`dep_index_from`] finds.
proof fn lemma_dep_index_from(d: Seq<DepEntry>, k: Seq<char>, j: int)
    requires
        0 <= j,
    ensures
        dep_index_from(d, k, j) == -1 || (j <= dep_index_from(d, k, j) < d.len() && d[dep_index_from(
            d,
            k,
            j,
        )].0 == k),
        dep_index_from(d, k, j) == -1 ==> forall|e: int| j <= e < d.len() ==> #[trigger] d[e].0 != k,
    decreases d.len() - j,
{
    if j < d.len() && d[j].0 != k {
        lemma_dep_index_from(d, k, j + 1);
    }
}

/// [`insert_pos_from`] stays within the entries.
proof fn lemma_insert_pos(d: Seq<DepEntry>, k: Seq<char>, j: int)
    requires
        0 <= j <= d.len(),
    ensures
        j <= insert_pos_from(d, k, j) <= d.len(),
    decreases d.len() - j,
{
    if j < d.len() {
        lemma_insert_pos(d, k, j + 1);
    }
}

/// Merging one module's dependencies into `d`, which represents `ds`,
/// fails exactly when some dependency gets two specs, naming both; and
/// otherwise represents `ds` with the new ones.
#[verifier::spinoff_prover]
#[verifier::rlimit(40)]
proof fn lemma_merge_deps(
    d: Seq<DepEntry>,
    ds: Seq<(Seq<char>, Seq<char>)>,
    m: Seq<char>,
    new: Seq<(Seq<char>, Seq<char>)>,
)
    requires
        represents(d, ds),
        deps_agree(ds),
    ensures
        (merge_deps(d, m, new) is Ok) == deps_agree(ds + new),
        match merge_deps(d, m, new) {
            Ok(d2) => represents(d2, ds + new),
            Err(e) => names_both(e),
        },
    decreases new.len(),
{
    if new.len() == 0 {
        assert(ds + new =~= ds);
    } else {
        let front = new.drop_last();
        let (k, v) = new.last();
        let all = ds + new;
        let prev = ds + front;
        assert(prev =~= all.drop_last());
        assert(all[all.len() - 1] == (k, v));
        assert forall|p: int| 0 <= p < prev.len() implies #[trigger] prev[p] == all[p] by {}
        lemma_merge_deps(d, ds, m, front);
        if !deps_agree(prev) {
            let (p, q) = choose|p: int, q: int|
                #![trigger prev[p], prev[q]]
                !(0 <= p < prev.len() && 0 <= q < prev.len() && prev[p].0 == prev[q].0 ==> prev[p].1
                    == prev[q].1);
            assert(all[p] == prev[p] && all[q] == prev[q]);
        } else {
            let d1 = merge_deps(d, m, front)->Ok_0;
            let i = dep_index_from(d1, k, 0);
            lemma_dep_index_from(d1, k, 0);
            if i >= 0 {
                let p = choose|p: int| 0 <= p < prev.len() && #[trigger] prev[p].0 == d1[i].0 && prev[p].1
                    == d1[i].1;
                if d1[i].1 == v {
                    assert(deps_agree(all)) by {
                        assert forall|a: int, b: int|
                            #![trigger all[a], all[b]]
                            0 <= a < all.len() && 0 <= b < all.len() && all[a].0 == all[b].0 implies all[a].1
                            == all[b].1 by {
                            if a < prev.len() && b < prev.len() {
                                assert(all[a] == prev[a]);
                                assert(all[b] == prev[b]);
                            } else if a < prev.len() {
                                assert(all[a] == prev[a]);
                                assert(prev[a].1 == prev[p].1);
                            } else if b < prev.len() {
                                assert(all[b] == prev[b]);
                                assert(prev[b].1 == prev[p].1);
                            }
                        }
                    }
                    assert forall|a: int| 0 <= a < all.len() implies has_dep(d1, #[trigger] all[a].0, all[a].1) by {
                        if a < prev.len() {
                            assert(all[a] == prev[a]);
                        } else {
                            assert(d1[i].0 == all[a].0);
                        }
                    }
                    assert forall|e: int| 0 <= e < d1.len() implies exists|a: int|
                        0 <= a < all.len() && #[trigger] all[a].0 == #[trigger] d1[e].0 && all[a].1 == d1[e].1 by {
                        let a = choose|a: int| 0 <= a < prev.len() && #[trigger] prev[a].0 == d1[e].0 && prev[a].1 == d1[e].1;
                        assert(all[a] == prev[a]);
                    }
                } else {
                    assert(all[p] == prev[p]);
                    assert(!deps_agree(all)) by {
                        assert(all[p].0 == all[all.len() - 1].0);
                    }
                }
            } else {
                let pos = insert_pos_from(d1, k, 0);
                lemma_insert_pos(d1, k, 0);
                let d2 = d1.insert(pos, (k, v, m));
                assert(merge_deps(d, m, new) == Ok::<Seq<DepEntry>, MergeErr>(d2));
                // No earlier entry names `k`.
                assert forall|a: int| 0 <= a < prev.len() implies #[trigger] prev[a].0 != k by {
                    if prev[a].0 == k {
                        let e = choose|e: int| 0 <= e < d1.len() && #[trigger] d1[e].0 == prev[a].0
                            && d1[e].1 == prev[a].1;
                    }
                }
                assert(deps_agree(all)) by {
                    assert forall|a: int, b: int|
                        #![trigger all[a], all[b]]
                        0 <= a < all.len() && 0 <= b < all.len() && all[a].0 == all[b].0 implies all[a].1
                        == all[b].1 by {
                        if a < prev.len() {
                            assert(all[a] == prev[a]);
                        }
                        if b < prev.len() {
                            assert(all[b] == prev[b]);
                        }
                    }
                }
                assert forall|e: int| 0 <= e < d2.len() implies (e < pos ==> #[trigger] d2[e] == d1[e]) && (e
                    == pos ==> d2[e] == (k, v, m)) && (e > pos ==> d2[e] == d1[e - 1]) by {}
                assert forall|e: int, f: int| 0 <= e < f < d2.len() implies #[trigger] d2[e].0
                    != #[trigger] d2[f].0 by {
                    if e != pos && f != pos {
                        let e1 = if e < pos { e } else { e - 1 };
                        let f1 = if f < pos { f } else { f - 1 };
                        assert(d1[e1].0 != d1[f1].0);
                    } else if e == pos {
                        let f1 = f - 1;
                        assert(d1[f1].0 != k);
                    } else {
                        assert(d1[e].0 != k);
                    }
                }
                assert forall|a: int| 0 <= a < all.len() implies has_dep(d2, #[trigger] all[a].0, all[a].1) by {
                    if a < prev.len() {
                        assert(all[a] == prev[a]);
                        assert(has_dep(d1, prev[a].0, prev[a].1));
                        let e = choose|e: int| 0 <= e < d1.len() && #[trigger] d1[e].0 == prev[a].0 && d1[e].1
                            == prev[a].1;
                        let e2 = if e < pos { e } else { e + 1 };
                        assert(d2[e2] == d1[e]);
                        assert(d2[e2].0 == all[a].0 && d2[e2].1 == all[a].1);
                    } else {
                        assert(d2[pos] == (k, v, m));
                        assert(d2[pos].0 == all[a].0 && d2[pos].1 == all[a].1);
                    }
                }
                assert forall|e: int| 0 <= e < d2.len() implies exists|a: int|
                    0 <= a < all.len() && #[trigger] all[a].0 == #[trigger] d2[e].0 && all[a].1 == d2[e].1 by {
                    if e == pos {
                        assert(all[all.len() - 1].0 == d2[e].0);
                    } else {
                        let e1 = if e < pos { e } else { e - 1 };
                        assert(d2[e] == d1[e1]);
                        let a = choose|a: int| 0 <= a < prev.len() && #[trigger] prev[a].0 == d1[e1].0 && prev[a].1
                            == d1[e1].1;
                        assert(all[a] == prev[a]);
                    }
                }
            }
        }
    }
}

/// The merged workspace name is the one every naming contribution gave,
/// and there is none exactly when no contribution names the workspace.
pub open spec fn name_represents(st: MergeState, cs: Seq<(Seq<char>, PixiIntent)>) -> bool {
    &&& (st.name is None) == forall|i: int| 0 <= i < cs.len() ==> (#[trigger] cs[i]).1.workspace_name is None
    &&& st.name is Some ==> forall|i: int|
        0 <= i < cs.len() && (#[trigger] cs[i]).1.workspace_name is Some ==> cs[i].1.workspace_name
            == Some(st.name->Some_0.0)
}

/// Agreement of all contributions implies agreement of the first ones.
proof fn lemma_agree_front(cs: Seq<(Seq<char>, PixiIntent)>)
    requires
        cs.len() > 0,
    ensures
        names_agree(cs) ==> names_agree(cs.drop_last()),
        deps_agree(all_deps(cs)) ==> deps_agree(all_deps(cs.drop_last())),
        all_deps(cs) == all_deps(cs.drop_last()) + cs.last().1.dependencies,
{
    let front = cs.drop_last();
    assert forall|i: int| 0 <= i < front.len() implies #[trigger] front[i] == cs[i] by {}
    let a = all_deps(cs);
    let b = all_deps(front);
    assert forall|p: int| 0 <= p < b.len() implies #[trigger] b[p] == a[p] by {}
    if names_agree(cs) {
        assert forall|i: int, j: int|
            #![trigger front[i], front[j]]
            0 <= i < front.len() && 0 <= j < front.len() && front[i].1.workspace_name is Some
                && front[j].1.workspace_name is Some implies front[i].1.workspace_name
            == front[j].1.workspace_name by {
            assert(cs[i] == front[i] && cs[j] == front[j]);
        }
    }
    if deps_agree(a) {
        assert forall|p: int, q: int|
            #![trigger b[p], b[q]]
            0 <= p < b.len() && 0 <= q < b.len() && b[p].0 == b[q].0 implies b[p].1 == b[q].1 by {
            assert(a[p] == b[p] && a[q] == b[q]);
        }
    }
}

/// Merging pixi contributions fails exactly when two of them disagree: on
/// the workspace name, or on the spec of one dependency. The error then
/// names two modules and their two different values. On success the
/// merged dependencies hold every contributed one, once each.
#[verifier::spinoff_prover]
#[verifier::rlimit(40)]
pub proof fn law_merge_fails_iff_disagreement(cs: Seq<(Seq<char>, PixiIntent)>)
    ensures
        (merge_pixi(cs) is Ok) == (names_agree(cs) && deps_agree(all_deps(cs))),
        match merge_pixi(cs) {
            Ok(st) => represents(st.deps, all_deps(cs)) && name_represents(st, cs),
            Err(e) => names_both(e),
        },
    decreases cs.len(),
{
    if cs.len() == 0 {
        assert(all_deps(cs) =~= Seq::<(Seq<char>, Seq<char>)>::empty());
    } else {
        let front = cs.drop_last();
        let (m, c) = cs.last();
        law_merge_fails_iff_disagreement(front);
        lemma_agree_front(cs);
        assert forall|i: int| 0 <= i < front.len() implies #[trigger] front[i] == cs[i] by {}
        let last = cs.len() - 1;
        assert(cs[last] == (m, c));
        match merge_pixi(front) {
            Err(e) => {},
            Ok(st) => {
                assert(merge_pixi(cs) == merge_contribution(st, m, c));
                lemma_merge_deps(st.deps, all_deps(front), m, c.dependencies);
                if merge_pixi(cs) is Ok {
                    let st2 = merge_pixi(cs)->Ok_0;
                    assert(name_represents(st2, cs)) by {
                        assert forall|i: int| 0 <= i < cs.len() && (#[trigger] cs[i]).1.workspace_name is Some
                            && st2.name is Some implies cs[i].1.workspace_name == Some(st2.name->Some_0.0) by {
                            if i < front.len() {
                                assert(front[i] == cs[i]);
                            }
                        }
                        if forall|i: int| 0 <= i < cs.len() ==> (#[trigger] cs[i]).1.workspace_name is None {
                            assert forall|i: int| 0 <= i < front.len() implies (#[trigger] front[i]).1.workspace_name is None by {
                                assert(cs[i] == front[i]);
                            }
                            assert(cs[last].1.workspace_name is None);
                        }
                        if st2.name is None {
                            assert forall|i: int| 0 <= i < cs.len() implies (#[trigger] cs[i]).1.workspace_name is None by {
                                if i < front.len() {
                                    assert(front[i] == cs[i]);
                                }
                            }
                        }
                    }
                }
                match (st.name, c.workspace_name) {
                    (Some((v, mm)), Some(v2)) => {
                        let i = choose|i: int| !(0 <= i < front.len() ==> (#[trigger] front[i]).1.workspace_name is None);
                        assert(front[i].1.workspace_name == Some(v));
                        if v == v2 {
                            assert forall|a: int, b: int|
                                #![trigger cs[a], cs[b]]
                                0 <= a < cs.len() && 0 <= b < cs.len() && cs[a].1.workspace_name is Some
                                    && cs[b].1.workspace_name is Some implies cs[a].1.workspace_name
                                == cs[b].1.workspace_name by {
                                if a < front.len() {
                                    assert(front[a] == cs[a]);
                                }
                                if b < front.len() {
                                    assert(front[b] == cs[b]);
                                }
                            }
                        } else {
                            assert(cs[i] == front[i]);
                            assert(!names_agree(cs)) by {
                                assert(cs[i].1.workspace_name != cs[last].1.workspace_name);
                            }
                        }
                    },
                    (None, Some(v2)) => {
                        assert forall|a: int, b: int|
                            #![trigger cs[a], cs[b]]
                            0 <= a < cs.len() && 0 <= b < cs.len() && cs[a].1.workspace_name is Some
                                && cs[b].1.workspace_name is Some implies cs[a].1.workspace_name
                            == cs[b].1.workspace_name by {
                            if a < front.len() {
                                assert(front[a] == cs[a]);
                            }
                            if b < front.len() {
                                assert(front[b] == cs[b]);
                            }
                        }
                    },
                    (_, None) => {
                        if names_agree(front) {
                            assert forall|a: int, b: int|
                                #![trigger cs[a], cs[b]]
                                0 <= a < cs.len() && 0 <= b < cs.len() && cs[a].1.workspace_name is Some
                                    && cs[b].1.workspace_name is Some implies cs[a].1.workspace_name
                                == cs[b].1.workspace_name by {
                                assert(front[a] == cs[a]);
                                assert(front[b] == cs[b]);
                            }
                        }
                    },
                }
            },
        }
    }
}

/// A key that is in sync, overridden, omitted or in conflict is never
/// rewritten: reconciling it leaves every line of `pixi.toml` as it was.
/// Only an update or a re-emission changes the file.
pub proof fn law_reconcile_only_updates_write(lines: Seq<Seq<char>>, omits: Seq<Seq<char>>, tgt: Target)
    ensures
        ({
            let (after, act) = reconcile_target(lines, omits, tgt);
            (act is InSync || act is Overridden || act is Omitted || act is Conflict) ==> after == lines
        }),
{
}

/// Removing keys yard no longer wants never touches an overridden key or
/// one in conflict: its line stays as it is.
pub proof fn law_removal_keeps_owned_lines(lines: Seq<Seq<char>>, tg: Seq<Target>, i: int)
    requires
        0 <= i < lines.len(),
    ensures
        ({
            let (repl, act) = removal_at(lines, tg, i);
            (act matches Some(a) && (a is Overridden || a is Conflict)) ==> repl == seq![lines[i]]
        }),
{
}

/// `x` is the line `o`, or `o` given the newline it lacked.
pub open spec fn same_line(x: Seq<char>, o: Seq<char>) -> bool {
    x == o || (x == o.push('\n') && !(o.len() > 0 && o.last() == '\n'))
}

/// Line `j` of `lines` is the user's as far as the targets `tg` go: no key,
/// an overridden key, or a key without a yard-managed marker at a path that
/// is no target's.
pub open spec fn user_line(lines: Seq<Seq<char>>, tg: Seq<Target>, j: int) -> bool {
    match pline_at(lines, j) {
        PLine::Key { key, marker, .. } => marker is Overridden || (!(marker is Managed) && !is_target_path(
            tg,
            super::reconcile::key_path(section_before(lines, j), key),
        )),
        _ => true,
    }
}

/// Line `p` of `cur` is line `j` of `orig`, possibly given the newline it
/// lacked, and a key there is in the same table.
pub open spec fn followed(orig: Seq<Seq<char>>, j: int, cur: Seq<Seq<char>>, p: int) -> bool {
    &&& 0 <= p < cur.len()
    &&& same_line(cur[p], orig[j])
    &&& pline_at(orig, j) is Key ==> section_before(cur, p) == section_before(orig, j)
}

/// A line given the newline it lacked reads the same.
pub(crate) proof fn lemma_same_line_reads_same(x: Seq<char>, o: Seq<char>)
    requires
        same_line(x, o),
    ensures
        strip_eol(x) == strip_eol(o),
{
    if x != o {
        assert(x.drop_last() =~= o);
        assert(strip_newline(o) == o);
    }
}

/// What [`find_key_from`] finds.
pub(crate) proof fn lemma_find_key_from(lines: Seq<Seq<char>>, section: Seq<char>, key: Seq<char>, j: int)
    requires
        0 <= j,
    ensures
        find_key_from(lines, section, key, j) == -1 || (j <= find_key_from(lines, section, key, j)
            < lines.len() && is_key_line(lines, find_key_from(lines, section, key, j), section, key)),
    decreases lines.len() - j,
{
    if j < lines.len() && !is_key_line(lines, j, section, key) {
        lemma_find_key_from(lines, section, key, j + 1);
    }
}

/// [`header_from`] finds a line, or -1.
pub(crate) proof fn lemma_header_from(lines: Seq<Seq<char>>, section: Seq<char>, j: int)
    requires
        0 <= j,
    ensures
        -1 <= header_from(lines, section, j) < lines.len(),
    decreases lines.len() - j,
{
    if j < lines.len() && pline_at(lines, j) != PLine::Header(section) {
        lemma_header_from(lines, section, j + 1);
    }
}

/// [`section_last`] stays between `last` and the end.
pub(crate) proof fn lemma_section_last(lines: Seq<Seq<char>>, j: int, last: int)
    requires
        0 <= last < lines.len(),
        last < j,
    ensures
        last <= section_last(lines, j, last) < lines.len(),
    decreases lines.len() - j,
{
    if !(j < 0 || j >= lines.len() || pline_at(lines, j) is Header) {
        lemma_section_last(lines, j + 1, if super::reconcile::is_blank(lines[j]) { last } else { j });
    }
}

/// The characters a key scan passes over are key characters.
pub(crate) proof fn lemma_key_end_chars(t: Seq<char>, i: int)
    requires
        0 <= i,
    ensures
        i <= key_end(t, i),
        i <= t.len() ==> key_end(t, i) <= t.len(),
        forall|m: int| i <= m < key_end(t, i) ==> is_key_char(#[trigger] t[m]),
    decreases t.len() - i,
{
    if i < t.len() && is_key_char(t[i]) {
        lemma_key_end_chars(t, i + 1);
    }
}

/// Skipped characters are spaces or tabs.
proof fn lemma_skip_ws_prefix(t: Seq<char>, j: int)
    requires
        0 <= j,
    ensures
        forall|m: int| j <= m < skip_ws(t, j) ==> is_ws(#[trigger] t[m]),
    decreases t.len() - j,
{
    if j < t.len() && is_ws(t[j]) {
        lemma_skip_ws_prefix(t, j + 1);
    }
}

/// A key line starts, after spaces, with a key character, and its value
/// ends after that.
proof fn lemma_key_line_start(t: Seq<char>)
    requires
        classify_pline(t) is Key,
    ensures
        skip_ws(t, 0) < t.len(),
        is_key_char(t[skip_ws(t, 0)]),
        forall|m: int| 0 <= m < skip_ws(t, 0) ==> is_ws(#[trigger] t[m]),
        skip_ws(t, 0) < classify_pline(t)->Key_value_end <= t.len(),
        classify_pline(t)->Key_key.len() > 0,
        is_key_char(classify_pline(t)->Key_key[0]),
{
    let i0 = skip_ws(t, 0);
    super::value::lemma_skip_ws_bounds(t, 0);
    lemma_skip_ws_prefix(t, 0);
    lemma_key_end_chars(t, i0);
    let ke = key_end(t, i0);
    let eq = skip_ws(t, ke);
    super::value::lemma_skip_ws_bounds(t, ke);
    let v0 = skip_ws(t, eq + 1);
    super::value::lemma_skip_ws_bounds(t, eq + 1);
    super::value::lemma_parse_value_end(t, v0);
    assert(t.subrange(i0, ke)[0] == t[i0]);
}

/// A text whose first non-blank character is no `[` is no header.
proof fn lemma_not_header(x: Seq<char>, m: int)
    requires
        0 <= m < x.len(),
        forall|k: int| 0 <= k < m ==> is_ws(#[trigger] x[k]),
        !is_ws(x[m]),
        x[m] != '[',
    ensures
        !(classify_pline(x) is Header),
{
    lemma_skip_ws_run(x, 0, m);
}

/// A managed line yard writes for a key is no header.
proof fn lemma_managed_not_header(key: Seq<char>, v: Value, d: Value)
    requires
        key.len() > 0,
        is_key_char(key[0]),
    ensures
        !(classify_pline(strip_eol(super::reconcile::managed_line(key, v, d))) is Header),
{
    lemma_managed_text(key, v, d);
    let x = managed_text(key, v, d);
    lemma_not_header(x, 0);
}

/// A key line given a marker is no header.
#[verifier::spinoff_prover]
#[verifier::rlimit(40)]
proof fn lemma_attach_not_header(t: Seq<char>, ve: int, d: Value)
    requires
        skip_ws(t, 0) < ve <= t.len(),
        is_key_char(t[skip_ws(t, 0)]),
        forall|m: int| 0 <= m < skip_ws(t, 0) ==> is_ws(#[trigger] t[m]),
    ensures
        !(classify_pline(strip_eol(super::reconcile::attach_line(t, ve, d))) is Header),
{
    reveal_strlit("  # yard:managed default=");
    let rd = render_default(d);
    let x = t.take(ve) + "  # yard:managed default="@ + rd;
    let a = super::reconcile::attach_line(t, ve, d);
    assert(a =~= x.push('\n'));
    assert(rd.len() > 0 && rd.last() != '\r');
    assert(x.last() == rd.last());
    assert(a.drop_last() =~= x);
    assert(strip_eol(a) == x);
    let i0 = skip_ws(t, 0);
    super::value::lemma_skip_ws_bounds(t, 0);
    assert forall|k: int| 0 <= k < i0 implies is_ws(#[trigger] x[k]) by {
        assert(x[k] == t.take(ve)[k]);
        assert(t.take(ve)[k] == t[k]);
    }
    assert(x[i0] == t.take(ve)[i0]);
    assert(t.take(ve)[i0] == t[i0]);
    lemma_not_header(x, i0);
}

/// Replacing a line that is no header by another keeps every line's table.
pub(crate) proof fn lemma_section_update(lines: Seq<Seq<char>>, i: int, x: Seq<char>, p: int)
    requires
        0 <= i < lines.len(),
        0 <= p <= lines.len(),
        !(pline_at(lines, i) is Header),
        !(classify_pline(strip_eol(x)) is Header),
    ensures
        section_before(lines.update(i, x), p) == section_before(lines, p),
    decreases p,
{
    if p > 0 {
        lemma_section_update(lines, i, x, p - 1);
        if p - 1 != i {
            assert(lines.update(i, x)[p - 1] == lines[p - 1]);
        }
    }
}

/// Lines read alike up to `p` are in the same tables up to `p`.
pub(crate) proof fn lemma_section_same_prefix(a: Seq<Seq<char>>, b: Seq<Seq<char>>, p: int)
    requires
        0 <= p <= a.len(),
        p <= b.len(),
        forall|k: int| 0 <= k < p ==> #[trigger] pline_at(a, k) == pline_at(b, k),
    ensures
        section_before(a, p) == section_before(b, p),
    decreases p,
{
    if p > 0 {
        lemma_section_same_prefix(a, b, p - 1);
    }
}

/// Lines after a header keep their table when a line is inserted before
/// the header.
proof fn lemma_section_shift(a: Seq<Seq<char>>, q: int, x: Seq<char>, h: int, p: int)
    requires
        0 <= q <= h < p <= a.len(),
        pline_at(a, h) is Header,
    ensures
        section_before(a.insert(q, x), p + 1) == section_before(a, p),
    decreases p,
{
    let b = a.insert(q, x);
    assert(b[p] == a[p - 1]);
    assert(pline_at(b, p) == pline_at(a, p - 1));
    if p - 1 > h && !(pline_at(a, p - 1) is Header) {
        lemma_section_shift(a, q, x, h, p - 1);
    }
}

/// [`section_last`] never goes below `last`.
proof fn lemma_section_last_ge(lines: Seq<Seq<char>>, j: int, last: int)
    requires
        last < j,
    ensures
        last <= section_last(lines, j, last),
    decreases lines.len() - j,
{
    if !(j < 0 || j >= lines.len() || pline_at(lines, j) is Header) {
        let nl = if super::reconcile::is_blank(lines[j]) { last } else { j };
        lemma_section_last_ge(lines, j + 1, nl);
    }
}

/// After the last non-blank line of a table, a non-blank line comes only
/// after another header.
proof fn lemma_section_last_after(lines: Seq<Seq<char>>, j: int, last: int, m: int)
    requires
        0 <= last < j <= m < lines.len(),
        section_last(lines, j, last) < m,
        !super::reconcile::is_blank(lines[m]),
    ensures
        exists|h: int| section_last(lines, j, last) < h <= m && #[trigger] pline_at(lines, h) is Header,
    decreases m - j,
{
    if pline_at(lines, j) is Header {
        assert(section_last(lines, j, last) == last);
    } else {
        let nl = if super::reconcile::is_blank(lines[j]) { last } else { j };
        assert(section_last(lines, j, last) == section_last(lines, j + 1, nl));
        if j == m {
            lemma_section_last_ge(lines, j + 1, nl);
            assert(false);
        } else {
            lemma_section_last_after(lines, j + 1, nl, m);
        }
    }
}

/// A key line is not blank.
proof fn lemma_key_not_blank(l: Seq<char>)
    requires
        classify_pline(strip_eol(l)) is Key,
    ensures
        !super::reconcile::is_blank(l),
{
    lemma_key_line_start(strip_eol(l));
}

/// Reconciling a found key line touches only that line, and what it
/// writes there is no header.
#[verifier::spinoff_prover]
#[verifier::rlimit(40)]
proof fn lemma_found_update(cur: Seq<Seq<char>>, omits: Seq<Seq<char>>, tgt: Target, i: int)
    requires
        0 <= i < cur.len(),
        find_key_from(cur, tgt.0, tgt.1, 0) == i,
        is_key_line(cur, i, tgt.0, tgt.1),
    ensures
        ({
            let cur2 = reconcile_target(cur, omits, tgt).0;
            &&& cur2 == cur.update(i, cur2[i])
            &&& !(classify_pline(strip_eol(cur2[i])) is Header)
        }),
{
    let cur2 = reconcile_target(cur, omits, tgt).0;
    let t = strip_eol(cur[i]);
    lemma_key_line_start(t);
    let key = tgt.1;
    match pline_at(cur, i) {
        PLine::Key { value, value_end, marker, .. } => {
            match marker {
                Marker::NoMarker => {
                    if cur2 == cur {
                        assert(cur2 =~= cur.update(i, cur[i]));
                    } else {
                        assert(cur2 == cur.update(i, super::reconcile::attach_line(t, value_end, tgt.2)));
                        lemma_attach_not_header(t, value_end, tgt.2);
                    }
                },
                Marker::Overridden => {
                    assert(cur2 =~= cur.update(i, cur[i]));
                },
                _ => {
                    if cur2 == cur {
                        assert(cur2 =~= cur.update(i, cur[i]));
                    } else {
                        let x = cur2[i];
                        assert(exists|v: Value| x == super::reconcile::managed_line(key, v, tgt.2));
                        let v = choose|v: Value| x == super::reconcile::managed_line(key, v, tgt.2);
                        lemma_managed_not_header(key, v, tgt.2);
                        assert(cur2 =~= cur.update(i, x));
                    }
                },
            }
        },
        _ => {},
    }
}

/// A key line reconciling finds is a user line only if overridden, and
/// then it stays; other lines stay where they are, in their tables.
#[verifier::spinoff_prover]
#[verifier::rlimit(40)]
proof fn lemma_keeps_found(
    orig: Seq<Seq<char>>,
    tg: Seq<Target>,
    j: int,
    cur: Seq<Seq<char>>,
    p: int,
    omits: Seq<Seq<char>>,
    t: int,
)
    requires
        0 <= j < orig.len(),
        user_line(orig, tg, j),
        followed(orig, j, cur, p),
        0 <= t < tg.len(),
        find_key_from(cur, tg[t].0, tg[t].1, 0) >= 0,
    ensures
        followed(orig, j, reconcile_target(cur, omits, tg[t]).0, p),
{
    let (section, key, want) = tg[t];
    let i = find_key_from(cur, section, key, 0);
    lemma_find_key_from(cur, section, key, 0);
    lemma_same_line_reads_same(cur[p], orig[j]);
    assert(pline_at(cur, p) == pline_at(orig, j));
    let cur2 = reconcile_target(cur, omits, tg[t]).0;
    if i == p {
        assert(key_path_of(tg[t]) == super::reconcile::key_path(section_before(orig, j), key));
        assert(is_target_path(tg, key_path_of(tg[t])));
        match pline_at(cur, p) {
            PLine::Key { marker, .. } => {
                assert(marker is Overridden);
            },
            _ => {},
        }
        assert(cur2 == cur);
    } else {
        lemma_found_update(cur, omits, tg[t], i);
        assert(cur2[p] == cur[p]);
        lemma_section_update(cur, i, cur2[i], p);
    }
}

/// Line `q - 1`, closed, reads as it did, and so do all lines; tables and
/// their extents stay.
pub(crate) proof fn lemma_close_line(cur: Seq<Seq<char>>, q: int)
    ensures
        close_line(cur, q).len() == cur.len(),
        forall|k: int| 0 <= k < cur.len() && k != q - 1 ==> #[trigger] close_line(cur, q)[k] == cur[k],
        forall|k: int|
            0 <= k < cur.len() ==> #[trigger] strip_eol(close_line(cur, q)[k]) == strip_eol(cur[k]),
        forall|k: int| 0 <= k < cur.len() ==> same_line(#[trigger] close_line(cur, q)[k], cur[k]),
        0 < q <= cur.len() ==> ends_nl(close_line(cur, q)[q - 1]),
{
    if 0 < q <= cur.len() && !ends_nl(cur[q - 1]) {
        let x = cur[q - 1];
        lemma_same_line_reads_same(x.push('\n'), x);
    }
}

/// Lines that read alike, blank alike, give a table the same extent.
pub(crate) proof fn lemma_section_last_same(a: Seq<Seq<char>>, b: Seq<Seq<char>>, j: int, last: int)
    requires
        a.len() == b.len(),
        forall|k: int| 0 <= k < a.len() ==> #[trigger] strip_eol(a[k]) == strip_eol(b[k]),
    ensures
        section_last(a, j, last) == section_last(b, j, last),
    decreases a.len() - j,
{
    if !(j < 0 || j >= a.len()) {
        assert(strip_eol(a[j]) == strip_eol(b[j]));
        assert(pline_at(a, j) == pline_at(b, j));
        assert(is_blank(a[j]) == is_blank(b[j]));
        if !(pline_at(a, j) is Header) {
            lemma_section_last_same(a, b, j + 1, if is_blank(a[j]) { last } else { j });
        }
    }
}

/// Inserting a key into an existing table keeps a user line, shifted past
/// the insertion, in its table.
proof fn lemma_keeps_insert(orig: Seq<Seq<char>>, j: int, cur: Seq<Seq<char>>, p: int, h: int, line: Seq<char>) -> (p2: int)
    requires
        0 <= j < orig.len(),
        followed(orig, j, cur, p),
        0 <= h < cur.len(),
    ensures
        followed(
            orig,
            j,
            close_line(cur, section_last(cur, h + 1, h) + 1).insert(section_last(cur, h + 1, h) + 1, line),
            p2,
        ),
        p2 == (if p >= section_last(cur, h + 1, h) + 1 { p + 1 } else { p }),
{
    let q = section_last(cur, h + 1, h) + 1;
    let closed = close_line(cur, q);
    lemma_close_line(cur, q);
    lemma_section_last_same(closed, cur, h + 1, h);
    assert forall|k: int| 0 <= k < p implies #[trigger] pline_at(closed, k) == pline_at(cur, k) by {
        assert(strip_eol(closed[k]) == strip_eol(cur[k]));
    }
    lemma_section_same_prefix(closed, cur, p);
    if closed[p] != cur[p] {
        assert(cur[p] == orig[j]);
    }
    assert(followed(orig, j, closed, p));
    lemma_keeps_insert_at(orig, j, closed, p, h, line)
}

/// Inserting a line at the end of a table keeps a user line, shifted past
/// the insertion, in its table.
#[verifier::spinoff_prover]
#[verifier::rlimit(40)]
proof fn lemma_keeps_insert_at(orig: Seq<Seq<char>>, j: int, cur: Seq<Seq<char>>, p: int, h: int, line: Seq<char>) -> (p2: int)
    requires
        0 <= j < orig.len(),
        followed(orig, j, cur, p),
        0 <= h < cur.len(),
    ensures
        followed(orig, j, cur.insert(section_last(cur, h + 1, h) + 1, line), p2),
        p2 == (if p >= section_last(cur, h + 1, h) + 1 { p + 1 } else { p }),
{
    lemma_same_line_reads_same(cur[p], orig[j]);
    assert(pline_at(cur, p) == pline_at(orig, j));
    if h + 1 < cur.len() {
        lemma_section_last(cur, h + 1, h);
    }
    let q = section_last(cur, h + 1, h) + 1;
    assert(0 <= q <= cur.len());
    let cur2 = cur.insert(q, line);
    if p < q {
        assert(cur2[p] == cur[p]);
        assert forall|k: int| 0 <= k < p implies #[trigger] pline_at(cur2, k) == pline_at(cur, k) by {
            assert(cur2[k] == cur[k]);
        }
        lemma_section_same_prefix(cur2, cur, p);
        p
    } else {
        assert(cur2[p + 1] == cur[p]);
        if pline_at(orig, j) is Key {
            lemma_key_not_blank(cur[p]);
            lemma_section_last_after(cur, h + 1, h, p);
            let hh = choose|hh: int| section_last(cur, h + 1, h) < hh <= p && #[trigger] pline_at(cur, hh) is Header;
            lemma_section_shift(cur, q, line, hh, p);
        }
        p + 1
    }
}

/// Starting a new table at the end of the file keeps a user line where it
/// is, in its table.
proof fn lemma_keeps_new_table(
    orig: Seq<Seq<char>>,
    j: int,
    cur: Seq<Seq<char>>,
    p: int,
    section: Seq<char>,
    line: Seq<char>,
)
    requires
        0 <= j < orig.len(),
        followed(orig, j, cur, p),
        header_from(cur, section, 0) < 0,
    ensures
        followed(orig, j, insert_key(cur, section, line), p),
{
    let cur2 = insert_key(cur, section, line);
    let fixed = if cur.len() > 0 && !super::reconcile::ends_nl(cur.last()) {
        cur.update(cur.len() - 1, cur.last().push('\n'))
    } else {
        cur
    };
    assert(cur2[p] == fixed[p]);
    if p == cur.len() - 1 && !super::reconcile::ends_nl(cur.last()) {
        assert(cur[p] == orig[j]);
    }
    assert forall|k: int| 0 <= k < p implies #[trigger] pline_at(cur2, k) == pline_at(cur, k) by {
        assert(cur2[k] == fixed[k]);
        assert(fixed[k] == cur[k]);
    }
    lemma_section_same_prefix(cur2, cur, p);
}

/// Where a line at `p` is after reconciling target `t`: one further down
/// where yard adds the key at or before it in an existing table.
pub open spec fn shift_pos(cur: Seq<Seq<char>>, omits: Seq<Seq<char>>, t: Target, p: int) -> int {
    let h = header_from(cur, t.0, 0);
    if find_key_from(cur, t.0, t.1, 0) < 0 && !omits.contains(key_path_of(t)) && h >= 0 && p
        >= section_last(cur, h + 1, h) + 1 {
        p + 1
    } else {
        p
    }
}

/// Where line `p` of `orig` is after reconciling the first `n` targets.
pub open spec fn pos_after(orig: Seq<Seq<char>>, omits: Seq<Seq<char>>, tg: Seq<Target>, n: int, p: int) -> int
    decreases n,
{
    if n <= 0 {
        p
    } else {
        shift_pos(reconcile_all(orig, omits, tg.take(n - 1)).0, omits, tg[n - 1], pos_after(orig, omits, tg, n - 1, p))
    }
}

/// Reconciling keeps lines in order.
proof fn lemma_pos_after_order(orig: Seq<Seq<char>>, omits: Seq<Seq<char>>, tg: Seq<Target>, n: int, p1: int, p2: int)
    requires
        p1 < p2,
    ensures
        pos_after(orig, omits, tg, n, p1) < pos_after(orig, omits, tg, n, p2),
    decreases n,
{
    if n > 0 {
        lemma_pos_after_order(orig, omits, tg, n - 1, p1, p2);
    }
}

/// Reconciling one target keeps a user line of the existing file, possibly
/// at another place and given the newline it lacked, in the same table.
proof fn lemma_reconcile_target_keeps(
    orig: Seq<Seq<char>>,
    tg: Seq<Target>,
    j: int,
    cur: Seq<Seq<char>>,
    p: int,
    omits: Seq<Seq<char>>,
    t: int,
) -> (p2: int)
    requires
        0 <= j < orig.len(),
        user_line(orig, tg, j),
        followed(orig, j, cur, p),
        0 <= t < tg.len(),
    ensures
        followed(orig, j, reconcile_target(cur, omits, tg[t]).0, p2),
        p2 == shift_pos(cur, omits, tg[t], p),
{
    let (section, key, want) = tg[t];
    let i = find_key_from(cur, section, key, 0);
    if i >= 0 {
        lemma_keeps_found(orig, tg, j, cur, p, omits, t);
        p
    } else if omits.contains(key_path_of(tg[t])) {
        p
    } else {
        let line = super::reconcile::managed_line(key, want, want);
        let h = header_from(cur, section, 0);
        lemma_header_from(cur, section, 0);
        assert(reconcile_target(cur, omits, tg[t]).0 == insert_key(cur, section, line));
        if h >= 0 {
            let q = section_last(cur, h + 1, h) + 1;
            assert(insert_key(cur, section, line) == close_line(cur, q).insert(q, line));
            lemma_keeps_insert(orig, j, cur, p, h, line)
        } else {
            lemma_keeps_new_table(orig, j, cur, p, section, line);
            p
        }
    }
}

/// The dotted path of a target.
pub open spec fn key_path_of(t: Target) -> Seq<char> {
    super::reconcile::key_path(t.0, t.1)
}

/// Reconciling the first `n` targets keeps a user line of the existing
/// file somewhere.
proof fn lemma_reconcile_all_keeps(
    orig: Seq<Seq<char>>,
    tg: Seq<Target>,
    j: int,
    omits: Seq<Seq<char>>,
    n: int,
) -> (p: int)
    requires
        0 <= j < orig.len(),
        user_line(orig, tg, j),
        0 <= n <= tg.len(),
    ensures
        followed(orig, j, reconcile_all(orig, omits, tg.take(n)).0, p),
        p == pos_after(orig, omits, tg, n, j),
    decreases n,
{
    if n == 0 {
        assert(tg.take(0) =~= Seq::<Target>::empty());
        j
    } else {
        let p0 = lemma_reconcile_all_keeps(orig, tg, j, omits, n - 1);
        let l0 = reconcile_all(orig, omits, tg.take(n - 1)).0;
        assert(tg.take(n).drop_last() =~= tg.take(n - 1));
        assert(tg.take(n).last() == tg[n - 1]);
        lemma_reconcile_target_keeps(orig, tg, j, l0, p0, omits, n - 1)
    }
}

/// Removing unwanted keys keeps every line it does not act on.
proof fn lemma_removal_keeps(lines: Seq<Seq<char>>, tg: Seq<Target>, n: int, p: int)
    requires
        0 <= p < n <= lines.len(),
        removal_at(lines, tg, p).0 == seq![lines[p]],
    ensures
        removal_upto(lines, tg, n).0.contains(lines[p]),
    decreases n,
{
    let (l1, _) = removal_upto(lines, tg, n - 1);
    let (ls, _) = removal_at(lines, tg, n - 1);
    assert(removal_upto(lines, tg, n).0 == l1 + ls);
    if p == n - 1 {
        assert((l1 + ls)[l1.len() as int] == lines[p]);
    } else {
        lemma_removal_keeps(lines, tg, n - 1, p);
        let k = choose|k: int| 0 <= k < l1.len() && l1[k] == lines[p];
        assert((l1 + ls)[k] == l1[k]);
    }
}

/// Replacing one line by a terminated one keeps every line but the last
/// terminated.
proof fn lemma_update_closed(lines: Seq<Seq<char>>, i: int, x: Seq<char>)
    requires
        closed_but_last(lines),
        0 <= i < lines.len(),
        ends_in_newline(x),
    ensures
        closed_but_last(lines.update(i, x)),
{
    assert forall|k: int| 0 <= k < lines.len() - 1 implies ends_in_newline(#[trigger] lines.update(i, x)[k]) by {
        if k != i {
            assert(lines.update(i, x)[k] == lines[k]);
        }
    }
}

/// The lines yard writes for a key end with a newline.
proof fn lemma_key_lines_closed(key: Seq<char>, v: Value, d: Value, t: Seq<char>, ve: int)
    ensures
        ends_in_newline(super::reconcile::managed_line(key, v, d)),
        ends_in_newline(super::reconcile::attach_line(t, ve, d)),
{
    let m = super::reconcile::managed_line(key, v, d);
    assert(m[m.len() - 1] == '\n');
    let a = super::reconcile::attach_line(t, ve, d);
    assert(a[a.len() - 1] == '\n');
}

/// Adding a terminated key line keeps every line but the last terminated.
proof fn lemma_insert_closed(lines: Seq<Seq<char>>, section: Seq<char>, line: Seq<char>)
    requires
        closed_but_last(lines),
        ends_in_newline(line),
    ensures
        closed_but_last(insert_key(lines, section, line)),
{
    let h = header_from(lines, section, 0);
    lemma_header_from(lines, section, 0);
    let after = insert_key(lines, section, line);
    if h >= 0 {
        if h + 1 < lines.len() {
            lemma_section_last(lines, h + 1, h);
        }
        let q = section_last(lines, h + 1, h) + 1;
        assert(0 < q <= lines.len());
        let closed = close_line(lines, q);
        lemma_close_line(lines, q);
        assert(after == closed.insert(q, line));
        assert forall|k: int| 0 <= k < after.len() - 1 implies ends_in_newline(#[trigger] after[k]) by {
            if k < q {
                assert(after[k] == closed[k]);
                if k != q - 1 {
                    assert(closed[k] == lines[k]);
                }
            } else if k > q {
                assert(after[k] == closed[k - 1]);
                assert(closed[k - 1] == lines[k - 1]);
            }
        }
    } else {
        let fixed = if lines.len() > 0 && !ends_nl(lines.last()) {
            lines.update(lines.len() - 1, lines.last().push('\n'))
        } else {
            lines
        };
        let sep: Seq<Seq<char>> = if lines.len() > 0 { seq![seq!['\n']] } else { seq![] };
        let hl = seq!['['] + section + seq![']', '\n'];
        assert(hl[hl.len() - 1] == '\n');
        assert(after == fixed + sep + seq![hl, line]);
        assert forall|k: int| 0 <= k < after.len() - 1 implies ends_in_newline(#[trigger] after[k]) by {
            if k < lines.len() {
                assert(after[k] == fixed[k]);
                if k < lines.len() - 1 {
                    assert(fixed[k] == lines[k]);
                } else if ends_nl(lines.last()) {
                    assert(fixed[k] == lines.last());
                } else {
                    assert(fixed[k] == lines.last().push('\n'));
                }
            } else if k < lines.len() + sep.len() {
                assert(after[k] == seq!['\n']);
            } else {
                assert(after[k] == hl);
            }
        }
    }
}

/// Reconciling a target keeps every line but the last terminated.
proof fn lemma_target_closed(lines: Seq<Seq<char>>, omits: Seq<Seq<char>>, t: Target)
    requires
        closed_but_last(lines),
    ensures
        closed_but_last(reconcile_target(lines, omits, t).0),
{
    let (section, key, want) = t;
    let i = find_key_from(lines, section, key, 0);
    if i >= 0 {
        lemma_find_key_from(lines, section, key, 0);
        match pline_at(lines, i) {
            PLine::Key { value, value_end, .. } => {
                lemma_key_lines_closed(key, want, want, strip_eol(lines[i]), value_end);
                match value {
                    Value::Arr(cur) => {
                        let w = match want { Value::Arr(w) => w, _ => cur };
                        match pline_at(lines, i) {
                            PLine::Key { marker: Marker::Managed(Value::Arr(dv)), .. } => {
                                let n = add_missing(w, super::reconcile::without(cur, dv));
                                lemma_key_lines_closed(key, Value::Arr(n), want, strip_eol(lines[i]), value_end);
                            },
                            _ => {},
                        }
                    },
                    _ => {},
                }
                let after = reconcile_target(lines, omits, t).0;
                if after != lines {
                    lemma_update_closed(lines, i, after[i]);
                    assert(after == lines.update(i, after[i]));
                }
            },
            _ => {},
        }
    } else if !omits.contains(key_path_of(t)) {
        lemma_key_lines_closed(key, want, want, seq![], 0);
        lemma_insert_closed(lines, section, super::reconcile::managed_line(key, want, want));
    }
}

/// Reconciling targets keeps every line but the last terminated.
pub(crate) proof fn lemma_all_closed(lines: Seq<Seq<char>>, omits: Seq<Seq<char>>, tg: Seq<Target>)
    requires
        closed_but_last(lines),
    ensures
        closed_but_last(reconcile_all(lines, omits, tg).0),
    decreases tg.len(),
{
    if tg.len() > 0 {
        lemma_all_closed(lines, omits, tg.drop_last());
        lemma_target_closed(reconcile_all(lines, omits, tg.drop_last()).0, omits, tg.last());
    }
}

/// What removal puts in place of one line: nothing, the line, or a
/// terminated line.
proof fn lemma_removal_piece(lines: Seq<Seq<char>>, tg: Seq<Target>, i: int)
    requires
        0 <= i < lines.len(),
    ensures
        removal_at(lines, tg, i).0.len() <= 1,
        removal_at(lines, tg, i).0.len() == 1 ==> removal_at(lines, tg, i).0[0] == lines[i]
            || ends_in_newline(removal_at(lines, tg, i).0[0]),
{
    let ls = removal_at(lines, tg, i).0;
    if ls.len() == 1 && ls[0] != lines[i] {
        assert(ls[0][ls[0].len() - 1] == '\n');
    }
}

/// Removal keeps every line but the last terminated; before the end of
/// the file, every line it has written so far is terminated.
pub(crate) proof fn lemma_removal_closed(lines: Seq<Seq<char>>, tg: Seq<Target>, n: int)
    requires
        closed_but_last(lines),
        0 <= n <= lines.len(),
    ensures
        closed_but_last(removal_upto(lines, tg, n).0),
        n < lines.len() ==> forall|k: int|
            0 <= k < removal_upto(lines, tg, n).0.len() ==> ends_in_newline(#[trigger] removal_upto(lines, tg, n).0[k]),
    decreases n,
{
    if n > 0 {
        lemma_removal_closed(lines, tg, n - 1);
        lemma_removal_piece(lines, tg, n - 1);
        let r0 = removal_upto(lines, tg, n - 1).0;
        let piece = removal_at(lines, tg, n - 1).0;
        let r = removal_upto(lines, tg, n).0;
        assert(r == r0 + piece);
        assert forall|k: int| 0 <= k < r.len() && (k < r.len() - 1 || n < lines.len()) implies ends_in_newline(
            #[trigger] r[k],
        ) by {
            if k < r0.len() {
                assert(r[k] == r0[k]);
            } else {
                assert(r[k] == piece[0]);
            }
        }
    }
}

/// Applying never loses what the user owns in `pixi.toml`: every line that
/// is no key, an overridden key, or a key without a yard-managed marker at
/// a path yard does not manage is one of the lines the written file splits
/// into, unchanged but for a newline the file's last line may gain.
#[verifier::spinoff_prover]
#[verifier::rlimit(40)]
pub proof fn law_user_lines_kept(d: PixiIntent, existing: Seq<char>, j: int)
    requires
        plan_pixi(d, Some(existing)) is Ok,
        0 <= j < lines_of(existing).len(),
        user_line(lines_of(existing), targets(d), j),
    ensures
        ({
            let written = plan_pixi(d, Some(existing))->Ok_0.contents;
            let o = lines_of(existing)[j];
            &&& written is Some
            &&& lines_of(written->Some_0).contains(o) || lines_of(written->Some_0).contains(o.push('\n'))
        }),
{
    let lines = lines_of(existing);
    let tg = targets(d);
    let omits = super::reconcile::omit_args(lines, lines.len() as int);
    let p = lemma_reconcile_all_keeps(lines, tg, j, omits, tg.len() as int);
    assert(tg.take(tg.len() as int) =~= tg);
    let l1 = reconcile_all(lines, omits, tg).0;
    lemma_same_line_reads_same(l1[p], lines[j]);
    assert(pline_at(l1, p) == pline_at(lines, j));
    assert(removal_at(l1, tg, p).0 == seq![l1[p]]);
    lemma_removal_keeps(l1, tg, l1.len() as int, p);
    let l2 = removal_upto(l1, tg, l1.len() as int).0;
    assert(plan_pixi(d, Some(existing))->Ok_0.contents == Some(concat(l2)));
    let idx = choose|k: int| 0 <= k < l2.len() && l2[k] == l1[p];
    crate::text::lemma_lines_from_run(existing, 0);
    assert(closed_but_last(lines));
    lemma_all_closed(lines, omits, tg);
    lemma_removal_closed(l1, tg, l1.len() as int);
    let o = lines[j];
    assert(is_line(o));
    if l1[p] != o {
        assert forall|k: int| 0 <= k < l1[p].len() - 1 implies l1[p][k] != '\n' by {
            assert(l1[p][k] == o[k]);
        }
    }
    crate::text::lemma_lines_of_contains(l2, idx);
}

/// Removal writes its lines in order: what it wrote for the first `m`
/// lines begins what it wrote for the first `n`.
proof fn lemma_removal_grows(l1: Seq<Seq<char>>, tg: Seq<Target>, m: int, n: int)
    requires
        0 <= m <= n <= l1.len(),
    ensures
        removal_upto(l1, tg, m).0.len() <= removal_upto(l1, tg, n).0.len(),
        removal_upto(l1, tg, n).0.take(removal_upto(l1, tg, m).0.len() as int) == removal_upto(l1, tg, m).0,
    decreases n - m,
{
    if m < n {
        lemma_removal_grows(l1, tg, m, n - 1);
        let a = removal_upto(l1, tg, n - 1).0;
        let b = removal_upto(l1, tg, n).0;
        assert(b == a + removal_at(l1, tg, n - 1).0);
        let k = removal_upto(l1, tg, m).0.len() as int;
        assert(b.take(k) =~= a.take(k));
    } else {
        let a = removal_upto(l1, tg, n).0;
        assert(a.take(a.len() as int) =~= a);
    }
}

/// A line removal keeps sits right after what removal wrote for the lines
/// before it.
proof fn lemma_removal_kept_at(l1: Seq<Seq<char>>, tg: Seq<Target>, p: int, n: int)
    requires
        0 <= p < n <= l1.len(),
        removal_at(l1, tg, p).0 == seq![l1[p]],
    ensures
        removal_upto(l1, tg, p).0.len() < removal_upto(l1, tg, n).0.len(),
        removal_upto(l1, tg, n).0[removal_upto(l1, tg, p).0.len() as int] == l1[p],
        removal_upto(l1, tg, p + 1).0.len() == removal_upto(l1, tg, p).0.len() + 1,
{
    let a = removal_upto(l1, tg, p).0;
    let b = removal_upto(l1, tg, p + 1).0;
    assert(b == a + seq![l1[p]]);
    lemma_removal_grows(l1, tg, p + 1, n);
    let c = removal_upto(l1, tg, n).0;
    assert(c.take(b.len() as int)[a.len() as int] == b[a.len() as int]);
}

/// Applying keeps the user's lines in their order: of two lines of the
/// existing `pixi.toml` that are no key, an overridden key, or a key
/// without a yard-managed marker at a path yard does not manage, the
/// earlier one comes first among the lines the written file splits into,
/// each unchanged but for a newline the file's last line may gain.
#[verifier::spinoff_prover]
#[verifier::rlimit(40)]
pub proof fn law_user_lines_in_order(d: PixiIntent, existing: Seq<char>, j1: int, j2: int)
    requires
        plan_pixi(d, Some(existing)) is Ok,
        0 <= j1 < j2 < lines_of(existing).len(),
        user_line(lines_of(existing), targets(d), j1),
        user_line(lines_of(existing), targets(d), j2),
    ensures
        ({
            let written = plan_pixi(d, Some(existing))->Ok_0.contents;
            &&& written is Some
            &&& exists|k1: int, k2: int|
                0 <= k1 < k2 < lines_of(written->Some_0).len() && same_line(
                    #[trigger] lines_of(written->Some_0)[k1],
                    lines_of(existing)[j1],
                ) && same_line(#[trigger] lines_of(written->Some_0)[k2], lines_of(existing)[j2])
        }),
{
    let lines = lines_of(existing);
    let tg = targets(d);
    let omits = super::reconcile::omit_args(lines, lines.len() as int);
    super::rerun::lemma_plan_ok(d, existing);
    let p1 = lemma_reconcile_all_keeps(lines, tg, j1, omits, tg.len() as int);
    let p2 = lemma_reconcile_all_keeps(lines, tg, j2, omits, tg.len() as int);
    lemma_pos_after_order(lines, omits, tg, tg.len() as int, j1, j2);
    assert(tg.take(tg.len() as int) =~= tg);
    let l1 = reconcile_all(lines, omits, tg).0;
    lemma_same_line_reads_same(l1[p1], lines[j1]);
    lemma_same_line_reads_same(l1[p2], lines[j2]);
    assert(removal_at(l1, tg, p1).0 == seq![l1[p1]]);
    assert(removal_at(l1, tg, p2).0 == seq![l1[p2]]);
    let n = l1.len() as int;
    lemma_removal_two(l1, tg, p1, p2);
    let l2 = removal_upto(l1, tg, n).0;
    let r1 = removal_upto(l1, tg, p1).0.len() as int;
    let r2 = removal_upto(l1, tg, p2).0.len() as int;
    crate::text::lemma_lines_from_run(existing, 0);
    assert(closed_but_last(lines));
    lemma_all_closed(lines, omits, tg);
    lemma_removal_closed(l1, tg, n);
    assert(is_line(lines[j1]) && is_line(lines[j2]));
    assert(l2[r1] == l1[p1] && l2[r2] == l1[p2]);
    lemma_two_lines_in_text(l2, r1, r2, lines[j1], lines[j2]);
    assert(plan_pixi(d, Some(existing))->Ok_0.contents == Some(concat(l2)));
    let text = concat(l2);
    let (k1, k2) = choose|k1: int, k2: int|
        0 <= k1 < k2 < lines_of(text).len() && same_line(#[trigger] lines_of(text)[k1], lines[j1]) && same_line(
            #[trigger] lines_of(text)[k2],
            lines[j2],
        );
    let written = plan_pixi(d, Some(existing))->Ok_0.contents;
    assert(written->Some_0 == text);
    assert(same_line(lines_of(written->Some_0)[k1], lines_of(existing)[j1]));
    assert(same_line(lines_of(written->Some_0)[k2], lines_of(existing)[j2]));
}

/// Two lines removal keeps stay in order.
proof fn lemma_removal_two(l1: Seq<Seq<char>>, tg: Seq<Target>, p1: int, p2: int)
    requires
        0 <= p1 < p2 < l1.len(),
        removal_at(l1, tg, p1).0 == seq![l1[p1]],
        removal_at(l1, tg, p2).0 == seq![l1[p2]],
    ensures
        ({
            let l2 = removal_upto(l1, tg, l1.len() as int).0;
            let r1 = removal_upto(l1, tg, p1).0.len() as int;
            let r2 = removal_upto(l1, tg, p2).0.len() as int;
            &&& 0 <= r1 < r2 < l2.len()
            &&& l2[r1] == l1[p1]
            &&& l2[r2] == l1[p2]
        }),
{
    let n = l1.len() as int;
    lemma_removal_kept_at(l1, tg, p1, n);
    lemma_removal_kept_at(l1, tg, p2, n);
    lemma_removal_grows(l1, tg, p1 + 1, p2);
}

/// A line given the newline it lacked is still one line.
proof fn lemma_same_line_is_line(x: Seq<char>, o: Seq<char>)
    requires
        same_line(x, o),
        is_line(o),
    ensures
        is_line(x),
{
    if x != o {
        assert forall|k: int| 0 <= k < x.len() - 1 implies x[k] != '\n' by {
            assert(x[k] == o[k]);
        }
    }
}

/// Two pieces that are lines, where every piece but the last is
/// terminated, stay in order among the lines of the text.
#[verifier::spinoff_prover]
#[verifier::rlimit(40)]
proof fn lemma_two_lines_in_text(ls: Seq<Seq<char>>, r1: int, r2: int, o1: Seq<char>, o2: Seq<char>)
    requires
        closed_but_last(ls),
        0 <= r1 < r2 < ls.len(),
        same_line(ls[r1], o1),
        same_line(ls[r2], o2),
        is_line(o1),
        is_line(o2),
    ensures
        exists|k1: int, k2: int|
            0 <= k1 < k2 < lines_of(concat(ls)).len() && same_line(#[trigger] lines_of(concat(ls))[k1], o1)
                && same_line(#[trigger] lines_of(concat(ls))[k2], o2),
{
    lemma_same_line_is_line(ls[r1], o1);
    lemma_same_line_is_line(ls[r2], o2);
    crate::text::lemma_line_at(ls, r1);
    crate::text::lemma_line_at(ls, r2);
    crate::text::lemma_line_order(ls, r1, r2);
    let k1 = lines_of(concat(ls.take(r1))).len() as int;
    let k2 = lines_of(concat(ls.take(r2))).len() as int;
    assert(lines_of(concat(ls))[k1] == ls[r1]);
    assert(lines_of(concat(ls))[k2] == ls[r2]);
}

/// Removal keeps every line when none is a yard-managed key.
proof fn lemma_removal_none(lines: Seq<Seq<char>>, tg: Seq<Target>, n: int)
    requires
        0 <= n <= lines.len(),
        forall|i: int| 0 <= i < lines.len() ==> !(#[trigger] pline_at(lines, i) matches PLine::Key {
            marker: Marker::Managed(_),
            ..
        }),
    ensures
        removal_upto(lines, tg, n).0 == lines.take(n),
    decreases n,
{
    if n > 0 {
        lemma_removal_none(lines, tg, n - 1);
        assert(!(pline_at(lines, n - 1) matches PLine::Key { marker: Marker::Managed(_), .. }));
        assert(removal_at(lines, tg, n - 1).0 == seq![lines[n - 1]]);
        assert(lines.take(n - 1) + seq![lines[n - 1]] =~= lines.take(n));
    } else {
        assert(lines.take(0) =~= Seq::<Seq<char>>::empty());
    }
}

/// With nothing desired, a `pixi.toml` holding no yard-managed key is
/// written back exactly as it is.
pub proof fn law_nothing_desired_keeps_user_file(existing: Seq<char>)
    requires
        plan_pixi(
            PixiIntent { workspace_name: None, channels: seq![], dependencies: seq![] },
            Some(existing),
        ) is Ok,
        forall|i: int| 0 <= i < lines_of(existing).len() ==> !(#[trigger] pline_at(lines_of(existing), i) matches PLine::Key {
            marker: Marker::Managed(_),
            ..
        }),
    ensures
        plan_pixi(
            PixiIntent { workspace_name: None, channels: seq![], dependencies: seq![] },
            Some(existing),
        )->Ok_0.contents == Some(existing),
{
    let d = PixiIntent { workspace_name: None, channels: seq![], dependencies: seq![] };
    let lines = lines_of(existing);
    let tg = targets(d);
    assert(tg =~= Seq::<Target>::empty());
    let omits = super::reconcile::omit_args(lines, lines.len() as int);
    assert(reconcile_all(lines, omits, tg).0 == lines);
    lemma_removal_none(lines, tg, lines.len() as int);
    assert(lines.take(lines.len() as int) =~= lines);
    crate::text::lemma_lines_concat(existing);
}

/// The items of `items` not in `excl` are those of `items` that `excl`
/// lacks.
pub(crate) proof fn lemma_without(items: Seq<Seq<char>>, excl: Seq<Seq<char>>)
    ensures
        forall|x: Seq<char>| #[trigger] super::reconcile::without(items, excl).contains(x) == (items.contains(x)
            && !excl.contains(x)),
    decreases items.len(),
{
    if items.len() > 0 {
        let front = items.drop_last();
        lemma_without(front, excl);
        let w0 = super::reconcile::without(front, excl);
        let w = super::reconcile::without(items, excl);
        assert forall|x: Seq<char>| #[trigger] w.contains(x) == (items.contains(x) && !excl.contains(x)) by {
            if w.contains(x) {
                let k = choose|k: int| 0 <= k < w.len() && w[k] == x;
                if k < w0.len() {
                    assert(w0[k] == x);
                    assert(w0.contains(x));
                    assert(front.contains(x));
                    let j = choose|j: int| 0 <= j < front.len() && front[j] == x;
                    assert(items[j] == x);
                } else {
                    assert(items[items.len() - 1] == x);
                }
            }
            if items.contains(x) && !excl.contains(x) {
                let j = choose|j: int| 0 <= j < items.len() && items[j] == x;
                if j < front.len() {
                    assert(front[j] == x);
                    assert(front.contains(x));
                    assert(w0.contains(x));
                    let k = choose|k: int| 0 <= k < w0.len() && w0[k] == x;
                    assert(w[k] == w0[k]);
                } else {
                    assert(w[w.len() - 1] == x);
                }
            }
        }
    }
}

/// When yard rewrites a managed array whose recorded items are all still
/// on disk, the new array holds exactly the wanted items and the items the
/// user added (those on disk that yard did not record).
pub proof fn law_array_keeps_user_items(want: Seq<Seq<char>>, on_disk: Seq<Seq<char>>, recorded: Seq<Seq<char>>)
    ensures
        forall|x: Seq<char>|
            #[trigger] add_missing(want, super::reconcile::without(on_disk, recorded)).contains(x) == (
            want.contains(x) || (on_disk.contains(x) && !recorded.contains(x))),
{
    lemma_without(on_disk, recorded);
    lemma_add_missing(want, super::reconcile::without(on_disk, recorded));
}

/// `add_missing` keeps `w` in front and appends only items not already
/// before them.
pub(crate) proof fn lemma_add_missing_shape(w: Seq<Seq<char>>, u: Seq<Seq<char>>)
    ensures
        w.len() <= add_missing(w, u).len(),
        add_missing(w, u).subrange(0, w.len() as int) == w,
        forall|k: int|
            w.len() <= k < add_missing(w, u).len() ==> !add_missing(w, u).take(k).contains(
                #[trigger] add_missing(w, u)[k],
            ),
    decreases u.len(),
{
    if u.len() > 0 {
        let before = add_missing(w, u.drop_last());
        lemma_add_missing_shape(w, u.drop_last());
        if !before.contains(u.last()) {
            let n = before.push(u.last());
            assert(n.subrange(0, w.len() as int) =~= before.subrange(0, w.len() as int));
            assert forall|k: int| w.len() <= k < n.len() implies !n.take(k).contains(#[trigger] n[k]) by {
                if k < before.len() {
                    assert(n.take(k) =~= before.take(k));
                    assert(n[k] == before[k]);
                } else {
                    assert(n.take(k) =~= before);
                }
            }
        }
    }
}

/// `x` occurs in `s`, first before any `y` does.
pub open spec fn comes_first(s: Seq<Seq<char>>, x: Seq<char>, y: Seq<char>) -> bool {
    exists|i: int|
        #![trigger s[i]]
        0 <= i < s.len() && s[i] == x && forall|j: int| 0 <= j < s.len() && #[trigger] s[j] == y ==> i < j
}

/// The items `add_missing` appends come in the order they first occur in
/// what was added.
pub(crate) proof fn lemma_add_missing_order(w: Seq<Seq<char>>, u: Seq<Seq<char>>)
    ensures
        forall|k1: int, k2: int|
            w.len() <= k1 < k2 < add_missing(w, u).len() ==> comes_first(
                u,
                #[trigger] add_missing(w, u)[k1],
                #[trigger] add_missing(w, u)[k2],
            ),
    decreases u.len(),
{
    if u.len() > 0 {
        let front = u.drop_last();
        let before = add_missing(w, front);
        let r = add_missing(w, u);
        lemma_add_missing_order(w, front);
        lemma_add_missing_shape(w, front);
        lemma_add_missing(w, front);
        assert forall|k1: int, k2: int| w.len() <= k1 < k2 < r.len() implies comes_first(
            u,
            #[trigger] r[k1],
            #[trigger] r[k2],
        ) by {
            assert(r[k1] == before[k1]);
            assert(before.contains(before[k1]));
            if k2 < before.len() {
                assert(r[k2] == before[k2]);
                assert(comes_first(front, before[k1], before[k2]));
                let i = choose|i: int|
                    #![trigger front[i]]
                    0 <= i < front.len() && front[i] == before[k1] && forall|j: int|
                        0 <= j < front.len() && #[trigger] front[j] == before[k2] ==> i < j;
                assert(u[i] == front[i]);
                assert forall|j: int| 0 <= j < u.len() && #[trigger] u[j] == r[k2] implies i < j by {
                    if j < front.len() {
                        assert(front[j] == u[j]);
                    }
                }
            } else {
                assert(r[k2] == u.last());
                assert(!before.contains(u.last()));
                assert(!w.contains(before[k1]));
                let i = choose|i: int| 0 <= i < front.len() && front[i] == before[k1];
                assert(u[i] == front[i]);
                assert forall|j: int| 0 <= j < u.len() && #[trigger] u[j] == r[k2] implies i < j by {
                    if j < front.len() {
                        assert(front[j] == u[j]);
                        assert(front.contains(u.last()));
                    }
                }
            }
        }
    }
}

/// Leaving items out keeps the order in which the others first occur.
proof fn lemma_without_order(items: Seq<Seq<char>>, excl: Seq<Seq<char>>, x: Seq<char>, y: Seq<char>)
    requires
        comes_first(super::reconcile::without(items, excl), x, y),
        !excl.contains(y),
    ensures
        comes_first(items, x, y),
    decreases items.len(),
{
    let u = super::reconcile::without(items, excl);
    let front = items.drop_last();
    let uf = super::reconcile::without(front, excl);
    let i = choose|i: int|
        #![trigger u[i]]
        0 <= i < u.len() && u[i] == x && forall|j: int| 0 <= j < u.len() && #[trigger] u[j] == y ==> i < j;
    if i < uf.len() {
        assert(uf[i] == u[i]);
        assert forall|j: int| 0 <= j < uf.len() && #[trigger] uf[j] == y implies i < j by {
            assert(u[j] == uf[j]);
        }
        lemma_without_order(front, excl, x, y);
        let i2 = choose|i2: int|
            #![trigger front[i2]]
            0 <= i2 < front.len() && front[i2] == x && forall|j: int|
                0 <= j < front.len() && #[trigger] front[j] == y ==> i2 < j;
        assert(items[i2] == front[i2]);
        assert forall|j: int| 0 <= j < items.len() && #[trigger] items[j] == y implies i2 < j by {
            if j < front.len() {
                assert(front[j] == items[j]);
            }
        }
    } else {
        assert(u == uf.push(items.last()));
        assert(x == items.last());
        lemma_without(items, excl);
        assert forall|j: int| 0 <= j < items.len() && #[trigger] items[j] == y implies items.len() - 1 < j by {
            if j < items.len() - 1 {
                assert(items.contains(y));
                assert(u.contains(y));
                let k = choose|k: int| 0 <= k < u.len() && u[k] == y;
                assert(i < k);
            }
        }
        assert(items[items.len() - 1] == x);
    }
}

/// The order of a rewritten managed array is canonical: the wanted items
/// first, in the order wanted, then each item the user added once, in the
/// order the user's items first occur on disk.
pub proof fn law_array_order(want: Seq<Seq<char>>, on_disk: Seq<Seq<char>>, recorded: Seq<Seq<char>>)
    ensures
        ({
            let r = add_missing(want, super::reconcile::without(on_disk, recorded));
            &&& want.len() <= r.len()
            &&& r.subrange(0, want.len() as int) == want
            &&& forall|k: int| want.len() <= k < r.len() ==> !r.take(k).contains(#[trigger] r[k])
            &&& forall|k1: int, k2: int|
                want.len() <= k1 < k2 < r.len() ==> comes_first(on_disk, #[trigger] r[k1], #[trigger] r[k2])
        }),
{
    let u = super::reconcile::without(on_disk, recorded);
    let r = add_missing(want, u);
    lemma_add_missing_shape(want, u);
    lemma_add_missing_order(want, u);
    lemma_add_missing(want, u);
    lemma_without(on_disk, recorded);
    assert forall|k1: int, k2: int| want.len() <= k1 < k2 < r.len() implies comes_first(
        on_disk,
        #[trigger] r[k1],
        #[trigger] r[k2],
    ) by {
        assert(comes_first(u, r[k1], r[k2]));
        assert(r.take(k2).contains(r[k2]) == false);
        assert(r.contains(r[k2]));
        if !u.contains(r[k2]) {
            assert(want.contains(r[k2]));
            let j = choose|j: int| 0 <= j < want.len() && want[j] == r[k2];
            assert(r.subrange(0, want.len() as int)[j] == r[j]);
            assert(r.take(k2)[j] == r[j]);
        }
        lemma_without_order(on_disk, recorded, r[k1], r[k2]);
    }
}

/// A bare TOML key: one or more of `[A-Za-z0-9_-]`.
pub open spec fn bare_key(k: Seq<char>) -> bool {
    k.len() > 0 && forall|m: int| 0 <= m < k.len() ==> is_key_char(#[trigger] k[m])
}

/// A key ends where its key characters end.
proof fn lemma_key_end(t: Seq<char>, j: int, n: int)
    requires
        0 <= j <= n < t.len(),
        forall|m: int| j <= m < n ==> is_key_char(#[trigger] t[m]),
        !is_key_char(t[n]),
    ensures
        key_end(t, j) == n,
    decreases n - j,
{
    if j < n {
        lemma_key_end(t, j + 1, n);
    }
}

/// The marker comment yard writes, split at its spaces.
proof fn lemma_marker_literal()
    ensures
        "  # yard:managed default="@ == "  #"@ + (" "@ + ("yard:managed"@ + (" "@ + "default="@))),
        " = "@ == seq![' ', '=', ' '],
        "  #"@ == seq![' ', ' ', '#'],
        " "@ == seq![' '],
        "yard:managed"@.len() == 12,
        "yard:managed"@[0] == 'y',
        "yard:overridden"@.len() == 15,
        "default="@.len() == 8,
        "default="@[0] == 'd',
        "# yard:omit "@.len() == 12,
        "# yard:omit "@[0] == '#',
{
    reveal_strlit("  # yard:managed default=");
    reveal_strlit("  #");
    reveal_strlit(" ");
    reveal_strlit("yard:managed");
    reveal_strlit("default=");
    reveal_strlit(" = ");
    reveal_strlit("yard:overridden");
    reveal_strlit("# yard:omit ");
    assert("  # yard:managed default="@ =~= "  #"@ + (" "@ + ("yard:managed"@ + (" "@ + "default="@))));
    assert(" = "@ =~= seq![' ', '=', ' ']);
    assert("  #"@ =~= seq![' ', ' ', '#']);
    assert(" "@ =~= seq![' ']);
}

/// How the comment yard writes after a managed value reads: as the marker
/// recording `d`.
#[verifier::spinoff_prover]
#[verifier::rlimit(40)]
proof fn lemma_managed_comment(d: Value)
    requires
        plain_value(d),
    ensures
        parse_comment(" "@ + ("yard:managed"@ + (" "@ + "default="@)) + render_default(d))
            == Marker::Managed(d),
{
    lemma_marker_literal();
    let rd = render_default(d);
    let ym = "yard:managed"@;
    let df = "default="@;
    let cm = seq![' '] + (ym + (seq![' '] + df)) + rd;
    lemma_skip_ws_run(cm, 0, 1);
    let b = cm.skip(1);
    assert(b =~= ym + (seq![' '] + df + rd));
    assert(rd.len() > 0 && !is_ws(rd.last()));
    assert(b.last() == rd.last());
    assert(trim_end(b) == b);
    assert(b.len() != "yard:overridden"@.len());
    assert(b.subrange(0, 12) =~= ym);
    let rest = b.skip(12);
    assert(rest =~= seq![' '] + df + rd);
    assert(rest[0] == ' ');
    assert(rest[1] == df[0]);
    lemma_skip_ws_run(rest, 0, 1);
    assert(rest.skip(1) =~= df + rd);
    assert(rest.skip(1).subrange(0, 8) =~= df);
    let dd = rest.skip(9);
    assert(dd =~= rd);
    assert(dd.subrange(0, rd.len() as int) =~= rd);
    lemma_parse_value_written(dd, 0, d, true);
    lemma_skip_ws_run(dd, dd.len() as int, dd.len() as int);
}

/// The marker comment after `  #`.
pub open spec fn comment_tail() -> Seq<char> {
    " "@ + ("yard:managed"@ + (" "@ + "default="@))
}

/// A managed line without its newline.
pub open spec fn managed_text(key: Seq<char>, v: Value, d: Value) -> Seq<char> {
    key + seq![' ', '=', ' '] + render_value(v) + seq![' ', ' ', '#'] + comment_tail() + render_default(d)
}

/// Where the pieces of a managed line sit.
#[verifier::spinoff_prover]
#[verifier::rlimit(40)]
pub proof fn lemma_managed_text(key: Seq<char>, v: Value, d: Value)
    ensures
        ({
            let t = managed_text(key, v, d);
            let n = key.len() as int;
            let rv = render_value(v);
            let ve = n + 3 + rv.len();
            &&& strip_eol(super::reconcile::managed_line(key, v, d)) == t
            &&& forall|m: int| 0 <= m < n ==> #[trigger] t[m] == key[m]
            &&& t[n] == ' ' && t[n + 1] == '=' && t[n + 2] == ' '
            &&& ve + 3 <= t.len()
            &&& t.subrange(n + 3, ve) == rv
            &&& t[ve] == ' ' && t[ve + 1] == ' ' && t[ve + 2] == '#'
            &&& t.skip(ve + 3) == comment_tail() + render_default(d)
            &&& t.subrange(0, n) == key
        }),
{
    lemma_marker_literal();
    let t = managed_text(key, v, d);
    let n = key.len() as int;
    let rv = render_value(v);
    let rd = render_default(d);
    let ve = n + 3 + rv.len();
    let ml = super::reconcile::managed_line(key, v, d);
    assert(ml =~= t.push('\n'));
    assert(rd.len() > 0 && rd.last() != '\r');
    assert(t.last() == rd.last());
    assert(ml.drop_last() =~= t);
    assert(t.subrange(n + 3, ve) =~= rv);
    assert(t.skip(ve + 3) =~= comment_tail() + rd);
    assert(t.subrange(0, n) =~= key);
}

/// A managed line yard writes, `key = <v>  # yard:managed default=<d>`,
/// reads back as the key `key` with value `v` and the marker recording `d`.
#[verifier::spinoff_prover]
#[verifier::rlimit(80)]
pub proof fn law_managed_line_reads_back(key: Seq<char>, v: Value, d: Value)
    requires
        bare_key(key),
        plain_value(v),
        plain_value(d),
    ensures
        classify_pline(strip_eol(super::reconcile::managed_line(key, v, d))) == (PLine::Key {
            key: key,
            value: v,
            value_end: (key.len() + 3 + render_value(v).len()) as int,
            marker: Marker::Managed(d),
        }),
{
    lemma_managed_text(key, v, d);
    lemma_marker_literal();
    let t = managed_text(key, v, d);
    let n = key.len() as int;
    let rv = render_value(v);
    let r = rv.len() as int;
    assert(t[0] == key[0] && is_key_char(key[0]));
    lemma_skip_ws_run(t, 0, 0);
    assert(!crate::text::starts_with(t.skip(0), "# yard:omit "@)) by {
        if crate::text::starts_with(t.skip(0), "# yard:omit "@) {
            assert(t.skip(0).subrange(0, 12)[0] == t[0]);
        }
    }
    lemma_key_end(t, 0, n);
    lemma_skip_ws_run(t, n, n + 1);
    let v0 = n + 3;
    assert(rv.len() > 0 && (rv[0] == '"' || rv[0] == '['));
    assert(t[v0] == t.subrange(n + 3, n + 3 + r)[0]);
    lemma_skip_ws_run(t, n + 2, v0);
    lemma_parse_value_written(t, v0, v, false);
    let ve = v0 + r;
    lemma_skip_ws_run(t, ve, ve + 2);
    lemma_managed_comment(d);
    assert(skip_ws(t, 0) == 0);
    assert(key_end(t, 0) == n);
    assert(skip_ws(t, n) == n + 1);
    assert(skip_ws(t, n + 2) == v0);
    assert(super::value::parse_value(t, v0) == Some((v, ve)));
    assert(skip_ws(t, ve) == ve + 2);
    assert(parse_comment(t.skip(ve + 3)) == Marker::Managed(d));
}

/// The line removal leaves of a managed array that still holds items the
/// user added: `key = <v>`, without a marker.
pub open spec fn bare_line(key: Seq<char>, v: Value) -> Seq<char> {
    key + " = "@ + render_value(v) + seq!['\n']
}

/// Where the pieces of a line `key = <v>` sit.
#[verifier::spinoff_prover]
#[verifier::rlimit(40)]
proof fn lemma_bare_text(key: Seq<char>, v: Value)
    ensures
        ({
            let t = key + seq![' ', '=', ' '] + render_value(v);
            let n = key.len() as int;
            &&& strip_eol(bare_line(key, v)) == t
            &&& forall|m: int| 0 <= m < n ==> #[trigger] t[m] == key[m]
            &&& t[n] == ' ' && t[n + 1] == '=' && t[n + 2] == ' '
            &&& t.len() == n + 3 + render_value(v).len()
            &&& t.subrange(n + 3, t.len() as int) == render_value(v)
        }),
{
    reveal_strlit(" = ");
    let rv = render_value(v);
    let n = key.len() as int;
    let t = key + seq![' ', '=', ' '] + rv;
    let line = bare_line(key, v);
    assert(line =~= t.push('\n'));
    assert(rv.len() > 0 && rv.last() != '\r');
    assert(t.last() == rv.last());
    assert(line.drop_last() =~= t);
    assert(t.subrange(n + 3, t.len() as int) =~= rv);
}

/// A line `key = <v>` without a marker reads back as the key `key` with
/// value `v` and no marker.
#[verifier::spinoff_prover]
#[verifier::rlimit(80)]
pub proof fn law_bare_line_reads_back(key: Seq<char>, v: Value)
    requires
        bare_key(key),
        plain_value(v),
    ensures
        classify_pline(strip_eol(bare_line(key, v))) == (PLine::Key {
            key: key,
            value: v,
            value_end: (key.len() + 3 + render_value(v).len()) as int,
            marker: Marker::NoMarker,
        }),
{
    lemma_bare_text(key, v);
    let rv = render_value(v);
    let n = key.len() as int;
    let r = rv.len() as int;
    let t = key + seq![' ', '=', ' '] + rv;
    assert(t[0] == key[0] && is_key_char(key[0]));
    lemma_skip_ws_run(t, 0, 0);
    assert(!crate::text::starts_with(t.skip(0), "# yard:omit "@)) by {
        if crate::text::starts_with(t.skip(0), "# yard:omit "@) {
            reveal_strlit("# yard:omit ");
            assert(t.skip(0).subrange(0, 12)[0] == t[0]);
        }
    }
    lemma_key_end(t, 0, n);
    lemma_skip_ws_run(t, n, n + 1);
    let v0 = n + 3;
    assert(rv[0] == '"' || rv[0] == '[');
    assert(t[v0] == t.subrange(n + 3, n + 3 + r)[0]);
    lemma_skip_ws_run(t, n + 2, v0);
    lemma_parse_value_written(t, v0, v, false);
    let ve = v0 + r;
    assert(ve == t.len());
    lemma_skip_ws_run(t, ve, ve);
    assert(skip_ws(t, ve) >= t.len());
    assert(t.subrange(0, n) =~= key);
    assert(t[0] != '[');
    assert(skip_ws(t, 0) == 0);
    assert(key_end(t, 0) == n);
    assert(skip_ws(t, n) == n + 1);
    assert(skip_ws(t, n + 2) == v0);
    assert(super::value::parse_value(t, v0) == Some((v, ve)));
}

/// Nothing is left of items all of which are excluded.
pub(crate) proof fn lemma_without_all(items: Seq<Seq<char>>, excl: Seq<Seq<char>>)
    requires
        forall|k: int| 0 <= k < items.len() ==> excl.contains(#[trigger] items[k]),
    ensures
        super::reconcile::without(items, excl) == Seq::<Seq<char>>::empty(),
    decreases items.len(),
{
    if items.len() > 0 {
        assert forall|k: int| 0 <= k < items.drop_last().len() implies excl.contains(
            #[trigger] items.drop_last()[k],
        ) by {
            assert(items.drop_last()[k] == items[k]);
        }
        lemma_without_all(items.drop_last(), excl);
        assert(excl.contains(items[items.len() - 1]));
    }
}

/// A key that yard wrote with the wanted value and recorded it as the
/// default reads back in sync: reconciling that target leaves the file as
/// it is and reports it in sync.
pub proof fn law_written_key_in_sync(lines: Seq<Seq<char>>, omits: Seq<Seq<char>>, tgt: Target)
    requires
        bare_key(tgt.1),
        plain_value(tgt.2),
        find_key_from(lines, tgt.0, tgt.1, 0) >= 0,
        lines[find_key_from(lines, tgt.0, tgt.1, 0)] == super::reconcile::managed_line(tgt.1, tgt.2, tgt.2),
    ensures
        reconcile_target(lines, omits, tgt) == (lines, Action::InSync { key: key_path_of(tgt) }),
{
    let (section, key, want) = tgt;
    let i = find_key_from(lines, section, key, 0);
    law_managed_line_reads_back(key, want, want);
    assert(pline_at(lines, i) == classify_pline(strip_eol(lines[i])));
    match want {
        Value::Arr(w) => {
            assert forall|k: int| 0 <= k < w.len() implies w.contains(#[trigger] w[k]) by {}
            lemma_without_all(w, w);
            assert(add_missing(w, Seq::<Seq<char>>::empty()) == w);
            assert(w + Seq::<Seq<char>>::empty() =~= w);
            super::settle::lemma_matched_prefix(w, Seq::<Seq<char>>::empty(), w.len() as int);
        },
        Value::Str(_) => {},
    }
}

/// Every channel contributed in `cs`, in order: the first module's list,
/// then the next one's, and so on.
pub open spec fn all_channels(cs: Seq<(Seq<char>, PixiIntent)>) -> Seq<Seq<char>>
    decreases cs.len(),
{
    if cs.len() == 0 {
        seq![]
    } else {
        all_channels(cs.drop_last()) + cs.last().1.channels
    }
}

/// The merged channels are the ordered union of the contributed channel
/// lists: they are exactly the channels contributed, each once, and of two
/// merged channels the one first contributed (in contribution order, then
/// in list order) comes first. So a channel keeps the place where it first
/// appears; contributing it again later does not move it.
#[verifier::rlimit(40)]
pub proof fn law_merge_channels(cs: Seq<(Seq<char>, PixiIntent)>)
    requires
        merge_pixi(cs) is Ok,
    ensures
        ({
            let ch = super::intent_of(merge_pixi(cs)->Ok_0).channels;
            let flat = all_channels(cs);
            &&& forall|x: Seq<char>| #[trigger] ch.contains(x) == flat.contains(x)
            &&& forall|i: int, j: int| 0 <= i < j < ch.len() ==> #[trigger] ch[i] != #[trigger] ch[j]
            &&& forall|i: int, j: int| 0 <= i < j < ch.len() ==> comes_first(flat, #[trigger] ch[i], #[trigger] ch[j])
        }),
    decreases cs.len(),
{
    if cs.len() > 0 {
        let front = cs.drop_last();
        let (m, c) = cs.last();
        let st = merge_pixi(front)->Ok_0;
        assert(merge_pixi(front) is Ok);
        law_merge_channels(front);
        let w = st.channels;
        assert(super::intent_of(st).channels == w);
        assert(forall|x: Seq<char>| #[trigger] w.contains(x) == all_channels(front).contains(x));
        let u = c.channels;
        let ch = add_missing(w, u);
        assert(merge_pixi(cs)->Ok_0.channels == ch);
        let f0 = all_channels(front);
        let flat = all_channels(cs);
        assert(flat == f0 + u);
        lemma_add_missing(w, u);
        lemma_add_missing_shape(w, u);
        lemma_add_missing_order(w, u);
        assert forall|x: Seq<char>| #[trigger] ch.contains(x) == flat.contains(x) by {
            if flat.contains(x) {
                let q = choose|q: int| 0 <= q < flat.len() && flat[q] == x;
                if q < f0.len() {
                    assert(f0[q] == x);
                    assert(f0.contains(x));
                    assert(w.contains(x));
                } else {
                    assert(u[q - f0.len()] == x);
                    assert(u.contains(x));
                }
            }
            if ch.contains(x) {
                if w.contains(x) {
                    assert(f0.contains(x));
                    let q = choose|q: int| 0 <= q < f0.len() && f0[q] == x;
                    assert(flat[q] == x);
                } else {
                    assert(u.contains(x));
                    let q = choose|q: int| 0 <= q < u.len() && u[q] == x;
                    assert(flat[f0.len() + q] == x);
                }
            }
        }
        // Channels appended after `w` were not contributed before.
        assert forall|j: int| w.len() <= j < ch.len() implies !f0.contains(#[trigger] ch[j]) by {
            if f0.contains(ch[j]) {
                assert(w.contains(ch[j]));
                let p = choose|p: int| 0 <= p < w.len() && w[p] == ch[j];
                assert(ch.subrange(0, w.len() as int)[p] == ch[p]);
                assert(ch.take(j)[p] == ch[p]);
                assert(ch.take(j).contains(ch[j]));
            }
        }
        assert forall|i: int| 0 <= i < w.len() implies #[trigger] ch[i] == w[i] by {
            assert(ch.subrange(0, w.len() as int)[i] == ch[i]);
        }
        assert forall|i: int, j: int| 0 <= i < j < ch.len() implies #[trigger] ch[i] != #[trigger] ch[j] by {
            if j >= w.len() {
                assert(ch.take(j)[i] == ch[i]);
            } else {
                assert(w[i] != w[j]);
            }
        }
        assert forall|i: int, j: int| 0 <= i < j < ch.len() implies comes_first(
            flat,
            #[trigger] ch[i],
            #[trigger] ch[j],
        ) by {
            if j < w.len() {
                assert(comes_first(f0, w[i], w[j]));
                let p = choose|p: int|
                    #![trigger f0[p]]
                    0 <= p < f0.len() && f0[p] == w[i] && forall|q: int|
                        0 <= q < f0.len() && #[trigger] f0[q] == w[j] ==> p < q;
                assert(flat[p] == ch[i]);
                assert forall|q: int| 0 <= q < flat.len() && #[trigger] flat[q] == ch[j] implies p < q by {
                    if q < f0.len() {
                        assert(f0[q] == flat[q]);
                    }
                }
            } else if i < w.len() {
                assert(w.contains(w[i]));
                assert(f0.contains(ch[i]));
                let p = choose|p: int| 0 <= p < f0.len() && f0[p] == ch[i];
                assert(flat[p] == ch[i]);
                assert forall|q: int| 0 <= q < flat.len() && #[trigger] flat[q] == ch[j] implies p < q by {
                    if q < f0.len() {
                        assert(f0[q] == ch[j]);
                        assert(f0.contains(ch[j]));
                    }
                }
            } else {
                assert(comes_first(u, ch[i], ch[j]));
                let p = choose|p: int|
                    #![trigger u[p]]
                    0 <= p < u.len() && u[p] == ch[i] && forall|q: int|
                        0 <= q < u.len() && #[trigger] u[q] == ch[j] ==> p < q;
                assert(flat[f0.len() + p] == ch[i]);
                assert forall|q: int| 0 <= q < flat.len() && #[trigger] flat[q] == ch[j] implies f0.len() + p < q by {
                    if q < f0.len() {
                        assert(f0[q] == ch[j]);
                        assert(f0.contains(ch[j]));
                    } else {
                        assert(u[q - f0.len()] == ch[j]);
                    }
                }
            }
        }
    }
}

/// Merging one more contribution keeps the channels merged so far, in
/// place, as a prefix: later modules only append channels.
pub proof fn law_merge_channels_extend(cs: Seq<(Seq<char>, PixiIntent)>, m: Seq<char>, c: PixiIntent)
    requires
        merge_pixi(cs.push((m, c))) is Ok,
    ensures
        merge_pixi(cs) is Ok,
        ({
            let before = super::intent_of(merge_pixi(cs)->Ok_0).channels;
            let after = super::intent_of(merge_pixi(cs.push((m, c)))->Ok_0).channels;
            &&& before.len() <= after.len()
            &&& after.subrange(0, before.len() as int) == before
        }),
{
    let cs2 = cs.push((m, c));
    assert(cs2.drop_last() =~= cs);
    assert(cs2.last() == (m, c));
    lemma_add_missing_shape(merge_pixi(cs)->Ok_0.channels, c.channels);
}

/// Two texts that differ from index `i` on are ordered one way or the
/// other.
proof fn lemma_lex_total(a: Seq<char>, b: Seq<char>, i: int)
    requires
        0 <= i <= a.len(),
        i <= b.len(),
    ensures
        super::lex_lt_from(a, b, i) || super::lex_lt_from(b, a, i) || (a.len() == b.len() && forall|k: int|
            i <= k < a.len() ==> a[k] == b[k]),
    decreases a.len() - i,
{
    if i < a.len() && i < b.len() && a[i] == b[i] {
        lemma_lex_total(a, b, i + 1);
    }
}

/// The order of texts is transitive.
proof fn lemma_lex_trans(a: Seq<char>, b: Seq<char>, c: Seq<char>, i: int)
    requires
        0 <= i,
        super::lex_lt_from(a, b, i),
        super::lex_lt_from(b, c, i),
    ensures
        super::lex_lt_from(a, c, i),
    decreases a.len() - i,
{
    if i < a.len() && i < b.len() && i < c.len() && a[i] == b[i] && b[i] == c[i] {
        lemma_lex_trans(a, b, c, i + 1);
    }
}

/// Names that are strictly increasing.
pub open spec fn names_sorted(d: Seq<DepEntry>) -> bool {
    forall|e: int, f: int| 0 <= e < f < d.len() ==> super::lex_lt(#[trigger] d[e].0, #[trigger] d[f].0)
}

/// Where [`insert_pos_from`] puts `k`: after the names it does not sort
/// before, before the first one it sorts before.
proof fn lemma_insert_pos_order(d: Seq<DepEntry>, k: Seq<char>, j: int)
    requires
        0 <= j <= d.len(),
    ensures
        forall|e: int| j <= e < insert_pos_from(d, k, j) ==> !super::lex_lt(k, #[trigger] d[e].0),
        insert_pos_from(d, k, j) < d.len() ==> super::lex_lt(k, d[insert_pos_from(d, k, j)].0),
    decreases d.len() - j,
{
    if j < d.len() {
        lemma_insert_pos_order(d, k, j + 1);
    }
}

/// Adding a name that is not there at [`insert_pos_from`] keeps the names
/// sorted.
proof fn lemma_insert_sorted(d: Seq<DepEntry>, x: DepEntry)
    requires
        names_sorted(d),
        forall|e: int| 0 <= e < d.len() ==> #[trigger] d[e].0 != x.0,
    ensures
        names_sorted(d.insert(insert_pos_from(d, x.0, 0), x)),
{
    let k = x.0;
    let pos = insert_pos_from(d, k, 0);
    lemma_insert_pos(d, k, 0);
    lemma_insert_pos_order(d, k, 0);
    let n = d.insert(pos, x);
    assert forall|e: int| 0 <= e < pos implies super::lex_lt(#[trigger] d[e].0, k) by {
        assert(!super::lex_lt(k, d[e].0));
        assert(d[e].0 != k);
        lemma_lex_total(d[e].0, k, 0);
        if !super::lex_lt(d[e].0, k) {
            assert(d[e].0 =~= k);
        }
    }
    assert forall|f: int| pos <= f < d.len() implies super::lex_lt(k, #[trigger] d[f].0) by {
        if f > pos {
            assert(super::lex_lt(d[pos].0, d[f].0));
            lemma_lex_trans(k, d[pos].0, d[f].0, 0);
        }
    }
    assert forall|e: int, f: int| 0 <= e < f < n.len() implies super::lex_lt(#[trigger] n[e].0, #[trigger] n[f].0) by {
        if f < pos {
            assert(n[e] == d[e] && n[f] == d[f]);
        } else if f == pos {
            assert(n[e] == d[e]);
        } else if e < pos {
            assert(n[e] == d[e] && n[f] == d[f - 1]);
            assert(super::lex_lt(d[e].0, k));
            assert(super::lex_lt(k, d[f - 1].0));
            lemma_lex_trans(d[e].0, k, d[f - 1].0, 0);
        } else if e == pos {
            assert(n[f] == d[f - 1]);
        } else {
            assert(n[e] == d[e - 1] && n[f] == d[f - 1]);
        }
    }
}

/// Merging one module's dependencies keeps the names sorted.
proof fn lemma_merge_deps_sorted(d: Seq<DepEntry>, m: Seq<char>, new: Seq<(Seq<char>, Seq<char>)>)
    requires
        names_sorted(d),
        merge_deps(d, m, new) is Ok,
    ensures
        names_sorted(merge_deps(d, m, new)->Ok_0),
    decreases new.len(),
{
    if new.len() > 0 {
        lemma_merge_deps_sorted(d, m, new.drop_last());
        let d1 = merge_deps(d, m, new.drop_last())->Ok_0;
        let (k, v) = new.last();
        lemma_dep_index_from(d1, k, 0);
        if dep_index_from(d1, k, 0) < 0 {
            lemma_insert_sorted(d1, (k, v, m));
        }
    }
}

/// The merged dependencies are sorted by name: of two, the one whose name
/// sorts first (in the order of Rust's `String`) comes first, so each name
/// occurs once.
pub proof fn law_merge_deps_sorted(cs: Seq<(Seq<char>, PixiIntent)>)
    requires
        merge_pixi(cs) is Ok,
    ensures
        ({
            let deps = super::intent_of(merge_pixi(cs)->Ok_0).dependencies;
            forall|e: int, f: int| 0 <= e < f < deps.len() ==> super::lex_lt(#[trigger] deps[e].0, #[trigger] deps[f].0)
        }),
    decreases cs.len(),
{
    if cs.len() > 0 {
        let front = cs.drop_last();
        let (m, c) = cs.last();
        law_merge_deps_sorted(front);
        let st = merge_pixi(front)->Ok_0;
        assert(names_sorted(st.deps)) by {
            let dv = super::intent_of(st).dependencies;
            assert forall|e: int, f: int| 0 <= e < f < st.deps.len() implies super::lex_lt(
                #[trigger] st.deps[e].0,
                #[trigger] st.deps[f].0,
            ) by {
                assert(dv[e].0 == st.deps[e].0 && dv[f].0 == st.deps[f].0);
            }
        }
        lemma_merge_deps_sorted(st.deps, m, c.dependencies);
        let d2 = merge_pixi(cs)->Ok_0.deps;
        assert(d2 == merge_deps(st.deps, m, c.dependencies)->Ok_0);
        let dv2 = super::intent_of(merge_pixi(cs)->Ok_0).dependencies;
        assert forall|e: int, f: int| 0 <= e < f < dv2.len() implies super::lex_lt(#[trigger] dv2[e].0, #[trigger] dv2[f].0) by {
            assert(dv2[e].0 == d2[e].0 && dv2[f].0 == d2[f].0);
        }
    } else {
        assert(super::intent_of(merge_pixi(cs)->Ok_0).dependencies.len() == 0);
    }
}

/// Contributions `i` and `j > i` set `workspace.name` to the two different
/// values `e` reports, and `e` names their modules in that order.
pub open spec fn name_clash(e: MergeErr, cs: Seq<(Seq<char>, PixiIntent)>, i: int, j: int) -> bool {
    &&& 0 <= i < j < cs.len()
    &&& e.key == "workspace.name"@
    &&& e.modules == seq![cs[i].0, cs[j].0]
    &&& e.values.len() == 2
    &&& cs[i].1.workspace_name == Some(e.values[0])
    &&& cs[j].1.workspace_name == Some(e.values[1])
}

/// Dependency `k` is given the two specs `e` reports: first as entry `p`
/// of contribution `i`, then as entry `q` of contribution `j` (a later
/// contribution, or a later entry of the same one); `e` names key
/// `dependencies.<k>` and the two modules in that order.
pub open spec fn dep_clash(
    e: MergeErr,
    cs: Seq<(Seq<char>, PixiIntent)>,
    k: Seq<char>,
    i: int,
    p: int,
    j: int,
    q: int,
) -> bool {
    &&& 0 <= i <= j < cs.len()
    &&& (i < j || p < q)
    &&& 0 <= p < cs[i].1.dependencies.len()
    &&& 0 <= q < cs[j].1.dependencies.len()
    &&& e.key == "dependencies."@ + k
    &&& e.modules == seq![cs[i].0, cs[j].0]
    &&& e.values.len() == 2
    &&& cs[i].1.dependencies[p] == (k, e.values[0])
    &&& cs[j].1.dependencies[q] == (k, e.values[1])
}

/// What a merge error reports is a real disagreement among the
/// contributions, earlier contribution first: two modules that set
/// `workspace.name`, or one dependency, to different values.
pub open spec fn reports_disagreement(e: MergeErr, cs: Seq<(Seq<char>, PixiIntent)>) -> bool {
    &&& e.adaptor == "pixi"@
    &&& names_both(e)
    &&& (exists|i: int, j: int| #[trigger] name_clash(e, cs, i, j)) || (exists|
        k: Seq<char>,
        i: int,
        p: int,
        j: int,
        q: int,
    | #[trigger] dep_clash(e, cs, k, i, p, j, q))
}

/// Merged entry `x` is entry `p` of contribution `i`, by its module.
spec fn dep_origin(cs: Seq<(Seq<char>, PixiIntent)>, x: DepEntry, i: int, p: int) -> bool {
    &&& 0 <= i < cs.len()
    &&& 0 <= p < cs[i].1.dependencies.len()
    &&& cs[i].0 == x.2
    &&& cs[i].1.dependencies[p] == (x.0, x.1)
}

/// Every entry of `d` comes from a contribution before `j`, or from one of
/// the first `n` dependencies of contribution `j`.
spec fn deps_from(cs: Seq<(Seq<char>, PixiIntent)>, d: Seq<DepEntry>, j: int, n: int) -> bool {
    forall|e: int| 0 <= e < d.len() ==> #[trigger] origin_before(cs, d[e], j, n)
}

/// Entry `x` comes from a contribution before `j`, or from one of the first
/// `n` dependencies of contribution `j`.
spec fn origin_before(cs: Seq<(Seq<char>, PixiIntent)>, x: DepEntry, j: int, n: int) -> bool {
    exists|i: int, p: int| (i < j || (i == j && p < n)) && #[trigger] dep_origin(cs, x, i, p)
}

/// [`deps_from`] allows more as `n` grows.
proof fn lemma_deps_from_grow(cs: Seq<(Seq<char>, PixiIntent)>, d: Seq<DepEntry>, j: int, n: int, n2: int)
    requires
        deps_from(cs, d, j, n),
        n <= n2,
    ensures
        deps_from(cs, d, j, n2),
{
    assert forall|e: int| 0 <= e < d.len() implies #[trigger] origin_before(cs, d[e], j, n2) by {
        assert(origin_before(cs, d[e], j, n));
        let (i, p) = choose|i: int, p: int| (i < j || (i == j && p < n)) && #[trigger] dep_origin(cs, d[e], i, p);
        assert(dep_origin(cs, d[e], i, p));
    }
}

/// Merging the first entries `new` of contribution `j`'s dependencies into
/// entries that come from earlier contributions yields entries that come
/// from those or from `new`, or an error that reports a disagreement.
#[verifier::rlimit(40)]
proof fn lemma_merge_deps_origin(
    cs: Seq<(Seq<char>, PixiIntent)>,
    j: int,
    d: Seq<DepEntry>,
    new: Seq<(Seq<char>, Seq<char>)>,
)
    requires
        0 <= j < cs.len(),
        new.len() <= cs[j].1.dependencies.len(),
        new == cs[j].1.dependencies.take(new.len() as int),
        deps_from(cs, d, j, 0),
    ensures
        match merge_deps(d, cs[j].0, new) {
            Ok(d2) => deps_from(cs, d2, j, new.len() as int),
            Err(er) => exists|k: Seq<char>, i: int, p: int, q: int| #[trigger] dep_clash(er, cs, k, i, p, j, q),
        },
    decreases new.len(),
{
    let m = cs[j].0;
    if new.len() == 0 {
        lemma_deps_from_grow(cs, d, j, 0, 0);
    } else {
        let front = new.drop_last();
        assert(front =~= cs[j].1.dependencies.take(front.len() as int));
        lemma_merge_deps_origin(cs, j, d, front);
        match merge_deps(d, m, front) {
            Err(er) => {},
            Ok(d1) => {
                let (k, v) = new.last();
                let q = front.len() as int;
                assert(cs[j].1.dependencies[q] == new[q]);
                lemma_dep_index_from(d1, k, 0);
                let x = dep_index_from(d1, k, 0);
                if x >= 0 {
                    if d1[x].1 != v {
                        assert(origin_before(cs, d1[x], j, q));
                        let (i, p) = choose|i: int, p: int|
                            (i < j || (i == j && p < q)) && #[trigger] dep_origin(cs, d1[x], i, p);
                        let er = merge_deps(d, m, new)->Err_0;
                        assert(dep_clash(er, cs, k, i, p, j, q));
                    } else {
                        lemma_deps_from_grow(cs, d1, j, q, new.len() as int);
                    }
                } else {
                    let pos = insert_pos_from(d1, k, 0);
                    lemma_insert_pos(d1, k, 0);
                    let d2 = d1.insert(pos, (k, v, m));
                    assert forall|e: int| 0 <= e < d2.len() implies #[trigger] origin_before(cs, d2[e], j, new.len() as int) by {
                        if e == pos {
                            assert(dep_origin(cs, d2[e], j, q));
                        } else {
                            let e1 = if e < pos { e } else { e - 1 };
                            assert(d2[e] == d1[e1]);
                            assert(origin_before(cs, d1[e1], j, q));
                            let (i, p) = choose|i: int, p: int|
                                (i < j || (i == j && p < q)) && #[trigger] dep_origin(cs, d1[e1], i, p);
                            assert(dep_origin(cs, d2[e], i, p));
                        }
                    }
                }
            },
        }
    }
}

/// Where merged values come from: the merged name and each merged
/// dependency were contributed by the module recorded with them; an error
/// reports a disagreement.
#[verifier::rlimit(40)]
proof fn lemma_merge_origin(cs: Seq<(Seq<char>, PixiIntent)>)
    ensures
        match merge_pixi(cs) {
            Ok(st) => {
                &&& (st.name matches Some((v, m0)) ==> exists|i: int|
                    0 <= i < cs.len() && (#[trigger] cs[i]).0 == m0 && cs[i].1.workspace_name == Some(v))
                &&& deps_from(cs, st.deps, cs.len() as int, 0)
            },
            Err(er) => (exists|i: int, j: int| #[trigger] name_clash(er, cs, i, j)) || (exists|
                k: Seq<char>,
                i: int,
                p: int,
                j: int,
                q: int,
            | #[trigger] dep_clash(er, cs, k, i, p, j, q)),
        },
    decreases cs.len(),
{
    if cs.len() > 0 {
        let front = cs.drop_last();
        let j = cs.len() - 1;
        let (m, c) = cs.last();
        assert(cs[j] == (m, c));
        lemma_merge_origin(front);
        assert forall|i: int| 0 <= i < front.len() implies #[trigger] front[i] == cs[i] by {}
        match merge_pixi(front) {
            Err(er) => {
                if exists|i: int, jj: int| #[trigger] name_clash(er, front, i, jj) {
                    let (i, jj) = choose|i: int, jj: int| #[trigger] name_clash(er, front, i, jj);
                    assert(front[i] == cs[i] && front[jj] == cs[jj]);
                    assert(name_clash(er, cs, i, jj));
                } else {
                    let (k, i, p, jj, q) = choose|k: Seq<char>, i: int, p: int, jj: int, q: int|
                        #[trigger] dep_clash(er, front, k, i, p, jj, q);
                    assert(front[i] == cs[i] && front[jj] == cs[jj]);
                    assert(dep_clash(er, cs, k, i, p, jj, q));
                }
            },
            Ok(st) => {
                assert(merge_pixi(cs) == merge_contribution(st, m, c));
                assert forall|e: int| 0 <= e < st.deps.len() implies #[trigger] origin_before(cs, st.deps[e], j, 0) by {
                    assert(origin_before(front, st.deps[e], front.len() as int, 0));
                    let (i, p) = choose|i: int, p: int|
                        (i < front.len() || (i == front.len() && p < 0)) && #[trigger] dep_origin(front, st.deps[e], i, p);
                    assert(front[i] == cs[i]);
                    assert(dep_origin(cs, st.deps[e], i, p));
                }
                assert(deps_from(cs, st.deps, j, 0));
                let old_name = st.name;
                match old_name {
                    Some((v, m0)) => {
                        let i = choose|i: int|
                            0 <= i < front.len() && (#[trigger] front[i]).0 == m0 && front[i].1.workspace_name
                                == Some(v);
                        assert(front[i] == cs[i]);
                        assert(cs[i].0 == m0 && cs[i].1.workspace_name == Some(v));
                        match c.workspace_name {
                            Some(v2) => if v != v2 {
                                let er = merge_pixi(cs)->Err_0;
                                assert(name_clash(er, cs, i, j));
                            },
                            None => {},
                        }
                    },
                    None => {},
                }
                assert(c.dependencies =~= cs[j].1.dependencies.take(c.dependencies.len() as int));
                lemma_merge_deps_origin(cs, j, st.deps, c.dependencies);
                match merge_pixi(cs) {
                    Ok(st2) => {
                        assert(st2.deps == merge_deps(st.deps, m, c.dependencies)->Ok_0);
                        assert(deps_from(cs, st2.deps, j, c.dependencies.len() as int));
                        assert forall|e: int| 0 <= e < st2.deps.len() implies #[trigger] origin_before(
                            cs,
                            st2.deps[e],
                            cs.len() as int,
                            0,
                        ) by {
                            assert(origin_before(cs, st2.deps[e], j, c.dependencies.len() as int));
                            let (i, p) = choose|i: int, p: int|
                                (i < j || (i == j && p < c.dependencies.len())) && #[trigger] dep_origin(
                                    cs,
                                    st2.deps[e],
                                    i,
                                    p,
                                );
                            assert(dep_origin(cs, st2.deps[e], i, p));
                        }
                        match st2.name {
                            Some((v, m0)) => {
                                if c.workspace_name is Some && st.name is None {
                                    assert(cs[j].0 == m0 && cs[j].1.workspace_name == Some(v));
                                }
                            },
                            None => {},
                        }
                    },
                    Err(er) => {},
                }
            },
        }
    }
}

/// A failed merge reports a real disagreement among the contributions,
/// earlier contribution first: the key (`workspace.name` or
/// `dependencies.<name>`), the two modules in contribution order and the
/// two different values each of them gave.
pub proof fn law_merge_error_reports(cs: Seq<(Seq<char>, PixiIntent)>)
    requires
        merge_pixi(cs) is Err,
    ensures
        reports_disagreement(merge_pixi(cs)->Err_0, cs),
{
    law_merge_fails_iff_disagreement(cs);
    lemma_merge_origin(cs);
    lemma_merge_error_adaptor(cs);
}

/// Merge errors name the pixi adaptor.
proof fn lemma_merge_error_adaptor(cs: Seq<(Seq<char>, PixiIntent)>)
    ensures
        merge_pixi(cs) is Err ==> merge_pixi(cs)->Err_0.adaptor == "pixi"@,
    decreases cs.len(),
{
    if cs.len() > 0 {
        lemma_merge_error_adaptor(cs.drop_last());
        match merge_pixi(cs.drop_last()) {
            Ok(st) => lemma_merge_deps_adaptor(st.deps, cs.last().0, cs.last().1.dependencies),
            Err(_) => {},
        }
    }
}

/// Dependency merge errors name the pixi adaptor.
proof fn lemma_merge_deps_adaptor(d: Seq<DepEntry>, m: Seq<char>, new: Seq<(Seq<char>, Seq<char>)>)
    ensures
        merge_deps(d, m, new) is Err ==> merge_deps(d, m, new)->Err_0.adaptor == "pixi"@,
    decreases new.len(),
{
    if new.len() > 0 {
        lemma_merge_deps_adaptor(d, m, new.drop_last());
    }
}

} // verus!
