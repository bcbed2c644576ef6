//! What a `pixi.toml` that yard writes from scratch reads back as: applying
//! the same intent to it again changes nothing.
use vstd::prelude::*;

use super::laws::{bare_key, key_path_of, law_managed_line_reads_back, law_written_key_in_sync};
use super::lines::{Marker, PLine, classify_pline, find_char, is_path_char, is_valid_path, key_end};
use super::PixiIntent;
use super::reconcile::{
    Target, targets, find_key_from, insert_key, reconcile_all, reconcile_target, is_blank, is_target_path,
    key_path, marker_error_from, omit_args, omit_report, plan_pixi, removal_at, removal_upto, header_from, is_key_line, managed_line, pline_at, section_before,
    section_last,
};
use super::value::{
    Value, escape, lemma_skip_ws_run, plain_text, plain_value, quote, render_default,
    render_items, render_value, skip_ws,
};
use crate::adaptors::Action;
use crate::text::{
    concat, ends_in_newline, free_of, is_line, lemma_lines_of_concat, line_run, lines_of, strip_eol,
};

verus! {

/// The header line yard writes for table `s`.
pub open spec fn header_line(s: Seq<char>) -> Seq<char> {
    seq!['['] + s + seq![']', '\n']
}

/// Header and managed lines yard writes end with a newline.
proof fn lemma_written_closed(s: Seq<char>, t: Target)
    ensures
        super::reconcile::ends_nl(header_line(s)),
        super::reconcile::ends_nl(written_line(t)),
{
    let h = header_line(s);
    assert(h[h.len() - 1] == '\n');
    let w = written_line(t);
    assert(w[w.len() - 1] == '\n');
}

/// The blank line yard writes before a new table.
pub open spec fn blank_line() -> Seq<char> {
    seq!['\n']
}

/// A header yard writes reads back as that table's header.
#[verifier::spinoff_prover]
#[verifier::rlimit(40)]
pub proof fn lemma_header_line(s: Seq<char>)
    requires
        is_valid_path(s),
    ensures
        classify_pline(strip_eol(header_line(s))) == PLine::Header(s),
        is_line(header_line(s)),
        ends_in_newline(header_line(s)),
{
    let t = seq!['['] + s + seq![']'];
    let l = header_line(s);
    assert(l =~= t.push('\n'));
    assert(l.drop_last() =~= t);
    assert(strip_eol(l) == t);
    lemma_skip_ws_run(t, 0, 0);
    assert forall|m: int| 1 <= m < s.len() + 1 implies #[trigger] t[m] != ']' by {
        assert(t[m] == s[m - 1]);
        assert(is_path_char(s[m - 1]));
    }
    let n = s.len() as int;
    lemma_find_char(t, ']', 1, n + 1);
    assert(t.subrange(1, n + 1) =~= s);
    lemma_skip_ws_run(t, n + 2, n + 2);
    assert forall|m: int| 0 <= m < l.len() - 1 implies l[m] != '\n' by {
        if 1 <= m < s.len() + 1 {
            assert(l[m] == s[m - 1]);
            assert(is_path_char(s[m - 1]));
        }
    }
}

/// [`find_char`] finds the first `c` from `i` on.
proof fn lemma_find_char(t: Seq<char>, c: char, i: int, k: int)
    requires
        0 <= i <= k < t.len(),
        t[k] == c,
        forall|m: int| i <= m < k ==> #[trigger] t[m] != c,
    ensures
        find_char(t, c, i) == k,
    decreases k - i,
{
    if i < k {
        lemma_find_char(t, c, i + 1, k);
    }
}

/// The blank line reads as nothing yard looks at.
pub proof fn lemma_blank_line()
    ensures
        classify_pline(strip_eol(blank_line())) == PLine::Other,
        is_line(blank_line()),
        ends_in_newline(blank_line()),
{
    reveal_strlit("# yard:omit ");
    let l = blank_line();
    assert(l.drop_last() =~= Seq::<char>::empty());
    assert(strip_eol(l) =~= Seq::<char>::empty());
    let t = Seq::<char>::empty();
    assert(!crate::text::starts_with(t.skip(0), "# yard:omit "@));
    assert(key_end(t, 0) == 0);
}

/// `free_of` over a concatenation.
proof fn lemma_free_add(a: Seq<char>, b: Seq<char>)
    requires
        free_of(a, '\n'),
        free_of(b, '\n'),
    ensures
        free_of(a + b, '\n'),
{
    assert forall|k: int| 0 <= k < (a + b).len() implies (a + b)[k] != '\n' by {
        if k < a.len() {
            assert((a + b)[k] == a[k]);
        } else {
            assert((a + b)[k] == b[k - a.len()]);
        }
    }
}

/// Escaping plain text adds no newline.
proof fn lemma_escape_free(s: Seq<char>)
    requires
        plain_text(s),
    ensures
        free_of(escape(s), '\n'),
    decreases s.len(),
{
    if s.len() > 0 {
        assert forall|k: int| 0 <= k < s.drop_last().len() implies #[trigger] s.drop_last()[k] != '\n'
            && s.drop_last()[k] != '\r' by {
            assert(s.drop_last()[k] == s[k]);
        }
        lemma_escape_free(s.drop_last());
        assert(s[s.len() - 1] != '\n');
        let c = s.last();
        let e = if c == '"' || c == '\\' { seq!['\\', c] } else { seq![c] };
        assert(free_of(e, '\n'));
        lemma_free_add(escape(s.drop_last()), e);
    }
}

/// Written items of plain text hold no newline.
proof fn lemma_items_free(items: Seq<Seq<char>>, sep: Seq<char>)
    requires
        forall|k: int| 0 <= k < items.len() ==> plain_text(#[trigger] items[k]),
        free_of(sep, '\n'),
    ensures
        free_of(render_items(items, sep), '\n'),
    decreases items.len(),
{
    if items.len() == 1 {
        assert(plain_text(items[0]));
        lemma_escape_free(items[0]);
        lemma_free_add(seq!['"'], escape(items[0]));
        lemma_free_add(seq!['"'] + escape(items[0]), seq!['"']);
    } else if items.len() > 1 {
        let front = items.drop_last();
        assert forall|k: int| 0 <= k < front.len() implies plain_text(#[trigger] front[k]) by {
            assert(front[k] == items[k]);
        }
        lemma_items_free(front, sep);
        assert(plain_text(items[items.len() - 1]));
        lemma_escape_free(items.last());
        lemma_free_add(seq!['"'], escape(items.last()));
        lemma_free_add(seq!['"'] + escape(items.last()), seq!['"']);
        lemma_free_add(render_items(front, sep), sep);
        lemma_free_add(render_items(front, sep) + sep, quote(items.last()));
    }
}

/// A written plain value holds no newline.
proof fn lemma_value_free(v: Value)
    requires
        plain_value(v),
    ensures
        free_of(render_value(v), '\n'),
        free_of(render_default(v), '\n'),
{
    reveal_strlit(", ");
    reveal_strlit(",");
    match v {
        Value::Str(s) => {
            lemma_escape_free(s);
            lemma_free_add(seq!['"'], escape(s));
            lemma_free_add(seq!['"'] + escape(s), seq!['"']);
        },
        Value::Arr(items) => {
            lemma_items_free(items, ", "@);
            lemma_items_free(items, ","@);
            lemma_free_add(seq!['['], render_items(items, ", "@));
            lemma_free_add(seq!['['] + render_items(items, ", "@), seq![']']);
            lemma_free_add(seq!['['], render_items(items, ","@));
            lemma_free_add(seq!['['] + render_items(items, ","@), seq![']']);
        },
    }
}

/// A line `key = <v>` yard leaves is one terminated line.
pub(crate) proof fn lemma_bare_line_is_line(key: Seq<char>, v: Value)
    requires
        bare_key(key),
        plain_value(v),
    ensures
        is_line(super::laws::bare_line(key, v)),
        ends_in_newline(super::laws::bare_line(key, v)),
{
    reveal_strlit(" = ");
    lemma_value_free(v);
    assert(free_of(key, '\n')) by {
        assert forall|k: int| 0 <= k < key.len() implies key[k] != '\n' by {
            assert(super::lines::is_key_char(key[k]));
        }
    }
    let lit1 = " = "@;
    assert(free_of(lit1, '\n'));
    lemma_free_add(key, lit1);
    lemma_free_add(key + lit1, render_value(v));
    let t = key + lit1 + render_value(v);
    let l = super::laws::bare_line(key, v);
    assert(l =~= t.push('\n'));
    assert forall|m: int| 0 <= m < l.len() - 1 implies l[m] != '\n' by {
        assert(l[m] == t[m]);
    }
}

/// A managed line yard writes is one terminated line.
#[verifier::spinoff_prover]
#[verifier::rlimit(40)]
pub proof fn lemma_managed_line_is_line(key: Seq<char>, v: Value, d: Value)
    requires
        bare_key(key),
        plain_value(v),
        plain_value(d),
    ensures
        is_line(managed_line(key, v, d)),
        ends_in_newline(managed_line(key, v, d)),
{
    reveal_strlit(" = ");
    reveal_strlit("  # yard:managed default=");
    lemma_value_free(v);
    lemma_value_free(d);
    assert(free_of(key, '\n')) by {
        assert forall|k: int| 0 <= k < key.len() implies key[k] != '\n' by {
            assert(super::lines::is_key_char(key[k]));
        }
    }
    let lit1 = " = "@;
    let lit2 = "  # yard:managed default="@;
    assert(free_of(lit1, '\n'));
    assert(free_of(lit2, '\n'));
    lemma_free_add(key, lit1);
    lemma_free_add(key + lit1, render_value(v));
    lemma_free_add(key + lit1 + render_value(v), lit2);
    lemma_free_add(key + lit1 + render_value(v) + lit2, render_default(d));
    let t = key + lit1 + render_value(v) + lit2 + render_default(d);
    let l = managed_line(key, v, d);
    assert(l =~= t.push('\n'));
    assert forall|m: int| 0 <= m < l.len() - 1 implies l[m] != '\n' by {
        assert(l[m] == t[m]);
    }
}

/// After a header for `s` and no other header, lines are in table `s`.
proof fn lemma_section_before_after(l: Seq<Seq<char>>, h: int, p: int, s: Seq<char>)
    requires
        0 <= h < p <= l.len(),
        pline_at(l, h) == PLine::Header(s),
        forall|m: int| h < m < p ==> !(#[trigger] pline_at(l, m) is Header),
    ensures
        section_before(l, p) == s,
    decreases p - h,
{
    if p - 1 > h {
        lemma_section_before_after(l, h, p - 1, s);
    }
}

/// [`find_key_from`] finds the first key line of `key` in `section`.
pub(crate) proof fn lemma_find_key_is(l: Seq<Seq<char>>, section: Seq<char>, key: Seq<char>, j: int, idx: int)
    requires
        0 <= j <= idx < l.len(),
        is_key_line(l, idx, section, key),
        forall|m: int| j <= m < idx ==> !#[trigger] is_key_line(l, m, section, key),
    ensures
        find_key_from(l, section, key, j) == idx,
    decreases idx - j,
{
    if j < idx {
        lemma_find_key_is(l, section, key, j + 1, idx);
    }
}

/// [`find_key_from`] finds nothing where no line is the key.
pub(crate) proof fn lemma_find_key_none(l: Seq<Seq<char>>, section: Seq<char>, key: Seq<char>, j: int)
    requires
        0 <= j,
        forall|m: int| j <= m < l.len() ==> !#[trigger] is_key_line(l, m, section, key),
    ensures
        find_key_from(l, section, key, j) == -1,
    decreases l.len() - j,
{
    if j < l.len() {
        lemma_find_key_none(l, section, key, j + 1);
    }
}

/// [`header_from`] finds the first header of a table, or nothing.
proof fn lemma_header_from_is(l: Seq<Seq<char>>, s: Seq<char>, j: int, h: int)
    requires
        0 <= j <= h <= l.len(),
        h < l.len() ==> pline_at(l, h) == PLine::Header(s),
        forall|m: int| j <= m < h ==> #[trigger] pline_at(l, m) != PLine::Header(s),
    ensures
        header_from(l, s, j) == (if h < l.len() { h } else { -1 }),
    decreases h - j,
{
    if j < h {
        lemma_header_from_is(l, s, j + 1, h);
    }
}

/// The last line of a table that runs to the end of the file with no blank
/// line.
proof fn lemma_section_last_end(l: Seq<Seq<char>>, j: int, last: int)
    requires
        0 <= j <= l.len(),
        forall|m: int| j <= m < l.len() ==> !(#[trigger] pline_at(l, m) is Header) && !super::reconcile::is_blank(l[m]),
    ensures
        section_last(l, j, last) == (if j < l.len() { l.len() - 1 } else { last }),
    decreases l.len() - j,
{
    if j < l.len() {
        lemma_section_last_end(l, j + 1, j);
    }
}

/// The managed line yard writes for a target.
pub open spec fn written_line(t: Target) -> Seq<char> {
    managed_line(t.1, t.2, t.2)
}

/// The targets in table `workspace`.
pub open spec fn ws_targets(d: PixiIntent) -> Seq<Target> {
    let t1: Seq<Target> = match d.workspace_name {
        Some(v) => seq![("workspace"@, "name"@, Value::Str(v))],
        None => seq![],
    };
    let t2: Seq<Target> = if d.channels.len() > 0 {
        seq![("workspace"@, "channels"@, Value::Arr(d.channels))]
    } else {
        seq![]
    };
    t1 + t2
}

/// The targets in table `dependencies`.
pub open spec fn dep_targets(d: PixiIntent) -> Seq<Target> {
    d.dependencies.map_values(|p: (Seq<char>, Seq<char>)| ("dependencies"@, p.0, Value::Str(p.1)))
}

/// The written lines of targets.
pub open spec fn written_lines(tg: Seq<Target>) -> Seq<Seq<char>> {
    tg.map_values(|t: Target| written_line(t))
}

/// The `workspace` table yard writes from scratch.
pub open spec fn ws_block(d: PixiIntent) -> Seq<Seq<char>> {
    if ws_targets(d).len() == 0 {
        seq![]
    } else {
        seq![header_line("workspace"@)] + written_lines(ws_targets(d))
    }
}

/// What precedes the dependencies yard writes from scratch.
pub open spec fn dep_head(d: PixiIntent) -> Seq<Seq<char>> {
    (if ws_block(d).len() > 0 {
        seq![blank_line()]
    } else {
        Seq::<Seq<char>>::empty()
    }) + seq![header_line("dependencies"@)]
}

/// The lines yard writes from scratch once it has written the first `k`
/// dependencies.
pub open spec fn layout(d: PixiIntent, k: int) -> Seq<Seq<char>> {
    ws_block(d) + (if k <= 0 {
        Seq::<Seq<char>>::empty()
    } else {
        dep_head(d) + written_lines(dep_targets(d).take(k))
    })
}

/// An intent yard can write and read back: plain texts, bare distinct
/// dependency names.
pub open spec fn intent_ok(d: PixiIntent) -> bool {
    &&& (d.workspace_name matches Some(n) ==> plain_text(n))
    &&& forall|k: int| 0 <= k < d.channels.len() ==> plain_text(#[trigger] d.channels[k])
    &&& forall|k: int|
        0 <= k < d.dependencies.len() ==> bare_key(#[trigger] d.dependencies[k].0) && plain_text(
            d.dependencies[k].1,
        )
    &&& forall|i: int, j: int|
        0 <= i < j < d.dependencies.len() ==> #[trigger] d.dependencies[i].0
            != #[trigger] d.dependencies[j].0
}

/// The targets split by table.
pub(crate) proof fn lemma_targets_split(d: PixiIntent)
    ensures
        targets(d) == ws_targets(d) + dep_targets(d),
        ws_targets(d).len() <= 2,
{
}

/// The names and tables yard writes are valid, and differ.
pub(crate) proof fn lemma_names()
    ensures
        is_valid_path("workspace"@),
        is_valid_path("dependencies"@),
        "workspace"@ != "dependencies"@,
        bare_key("name"@),
        bare_key("channels"@),
        "name"@ != "channels"@,
{
    reveal_strlit("workspace");
    reveal_strlit("dependencies");
    reveal_strlit("name");
    reveal_strlit("channels");
    assert("workspace"@.len() != "dependencies"@.len());
    assert("name"@.len() != "channels"@.len());
}

/// Each target of a writable intent has a bare key and a plain value.
pub(crate) proof fn lemma_targets_ok(d: PixiIntent)
    requires
        intent_ok(d),
    ensures
        forall|i: int| 0 <= i < ws_targets(d).len() ==> bare_key((#[trigger] ws_targets(d)[i]).1)
            && plain_value(ws_targets(d)[i].2) && ws_targets(d)[i].0 == "workspace"@,
        forall|i: int| 0 <= i < dep_targets(d).len() ==> bare_key((#[trigger] dep_targets(d)[i]).1)
            && plain_value(dep_targets(d)[i].2) && dep_targets(d)[i].0 == "dependencies"@,
        forall|i: int, j: int| 0 <= i < j < ws_targets(d).len() ==> (#[trigger] ws_targets(d)[i]).1
            != (#[trigger] ws_targets(d)[j]).1,
        forall|i: int, j: int| 0 <= i < j < dep_targets(d).len() ==> (#[trigger] dep_targets(d)[i]).1
            != (#[trigger] dep_targets(d)[j]).1,
{
    lemma_names();
    let ws = ws_targets(d);
    let deps = dep_targets(d);
    assert forall|i: int| 0 <= i < deps.len() implies bare_key((#[trigger] deps[i]).1) && plain_value(
        deps[i].2,
    ) && deps[i].0 == "dependencies"@ by {
        assert(bare_key(d.dependencies[i].0));
    }
    assert forall|i: int, j: int| 0 <= i < j < deps.len() implies (#[trigger] deps[i]).1
        != (#[trigger] deps[j]).1 by {
        assert(d.dependencies[i].0 != d.dependencies[j].0);
    }
    assert forall|i: int| 0 <= i < ws.len() implies bare_key((#[trigger] ws[i]).1) && plain_value(
        ws[i].2,
    ) && ws[i].0 == "workspace"@ by {
        match d.workspace_name {
            Some(n) => {
                if i == 1 {
                    assert(ws[1].2 == Value::Arr(d.channels));
                }
            },
            None => {},
        }
    }
    assert forall|i: int, j: int| 0 <= i < j < ws.len() implies (#[trigger] ws[i]).1
        != (#[trigger] ws[j]).1 by {
        assert(i == 0 && j == 1);
        assert(d.workspace_name is Some);
    }
}

/// Index of the dependencies header in a layout with dependencies.
pub open spec fn dep_header_at(d: PixiIntent) -> int {
    ws_block(d).len() + (if ws_block(d).len() > 0 { 1int } else { 0int })
}

/// Which line of the layout holds what.
#[verifier::spinoff_prover]
#[verifier::rlimit(40)]
proof fn lemma_layout_index(d: PixiIntent, k: int)
    requires
        0 <= k <= dep_targets(d).len(),
    ensures
        ({
            let l = layout(d, k);
            let ws = ws_targets(d);
            let deps = dep_targets(d);
            let nw = ws_block(d).len() as int;
            let hd = dep_header_at(d);
            &&& nw == (if ws.len() > 0 { 1 + ws.len() } else { 0 })
            &&& l.len() == (if k > 0 { hd + 1 + k } else { nw })
            &&& nw > 0 ==> l[0] == header_line("workspace"@)
            &&& forall|i: int| 0 <= i < ws.len() ==> l[1 + i] == written_line(#[trigger] ws[i])
            &&& k > 0 ==> (nw > 0 ==> l[nw] == blank_line()) && l[hd] == header_line("dependencies"@)
            &&& forall|j: int| 0 <= j < k ==> l[hd + 1 + j] == written_line(#[trigger] deps[j])
        }),
{
    let l = layout(d, k);
    let ws = ws_targets(d);
    let deps = dep_targets(d);
    let w = ws_block(d);
    let nw = w.len() as int;
    let hd = dep_header_at(d);
    if ws.len() > 0 {
        assert forall|i: int| 0 <= i < ws.len() implies l[1 + i] == written_line(#[trigger] ws[i]) by {
            assert(l[1 + i] == w[1 + i]);
            assert(w[1 + i] == written_lines(ws)[i]);
        }
        assert(l[0] == w[0]);
    }
    if k > 0 {
        let dh = dep_head(d);
        let dl = written_lines(deps.take(k));
        assert(l =~= w + (dh + dl));
        assert(dh.len() == hd - nw + 1);
        assert(l[hd] == dh[hd - nw]);
        if nw > 0 {
            assert(l[nw] == dh[0]);
        }
        assert forall|j: int| 0 <= j < k implies l[hd + 1 + j] == written_line(#[trigger] deps[j]) by {
            assert(l[hd + 1 + j] == (dh + dl)[hd + 1 + j - nw]);
            assert((dh + dl)[hd + 1 + j - nw] == dl[j]);
            assert(deps.take(k)[j] == deps[j]);
        }
    }
}

/// Line `m` of `l` is the written line of target `t`, in its table.
pub open spec fn key_at(l: Seq<Seq<char>>, m: int, t: Target) -> bool {
    &&& 0 <= m < l.len()
    &&& pline_at(l, m) matches PLine::Key { key, value, marker: Marker::Managed(dv), .. } && key == t.1
        && value == t.2 && dv == t.2
    &&& section_before(l, m) == t.0
}

/// What each line of the layout reads as.
#[verifier::spinoff_prover]
#[verifier::rlimit(40)]
proof fn lemma_layout_plines(d: PixiIntent, k: int)
    requires
        intent_ok(d),
        0 <= k <= dep_targets(d).len(),
    ensures
        ({
            let l = layout(d, k);
            let ws = ws_targets(d);
            let deps = dep_targets(d);
            let nw = ws_block(d).len() as int;
            let hd = dep_header_at(d);
            &&& nw > 0 ==> pline_at(l, 0) == PLine::Header("workspace"@)
            &&& forall|i: int| 0 <= i < ws.len() ==> key_at(l, 1 + i, #[trigger] ws[i])
            &&& k > 0 && nw > 0 ==> pline_at(l, nw) == PLine::Other
            &&& k > 0 ==> pline_at(l, hd) == PLine::Header("dependencies"@)
            &&& forall|j: int| 0 <= j < k ==> key_at(l, hd + 1 + j, #[trigger] deps[j])
            &&& forall|m: int| 0 <= m < l.len() ==> is_line(#[trigger] l[m]) && ends_in_newline(l[m])
        }),
{
    lemma_layout_index(d, k);
    lemma_targets_ok(d);
    lemma_names();
    let l = layout(d, k);
    let ws = ws_targets(d);
    let deps = dep_targets(d);
    let nw = ws_block(d).len() as int;
    let hd = dep_header_at(d);
    lemma_header_line("workspace"@);
    lemma_header_line("dependencies"@);
    lemma_blank_line();
    assert forall|i: int| 0 <= i < ws.len() implies #[trigger] pline_at(l, 1 + i) matches PLine::Key {
        key,
        value,
        marker: Marker::Managed(dv),
        ..
    } && key == ws[i].1 && value == ws[i].2 && dv == ws[i].2 by {
        law_managed_line_reads_back(ws[i].1, ws[i].2, ws[i].2);
    }
    assert forall|j: int| 0 <= j < k implies #[trigger] pline_at(l, hd + 1 + j) matches PLine::Key {
        key,
        value,
        marker: Marker::Managed(dv),
        ..
    } && key == deps[j].1 && value == deps[j].2 && dv == deps[j].2 by {
        law_managed_line_reads_back(deps[j].1, deps[j].2, deps[j].2);
    }
    assert forall|i: int| 0 <= i < ws.len() implies key_at(l, 1 + i, #[trigger] ws[i]) by {
        assert forall|m: int| 0 < m < 1 + i implies !(#[trigger] pline_at(l, m) is Header) by {
            assert(pline_at(l, 1 + (m - 1)) is Key);
        }
        lemma_section_before_after(l, 0, 1 + i, "workspace"@);
    }
    assert forall|j: int| 0 <= j < k implies key_at(l, hd + 1 + j, #[trigger] deps[j]) by {
        assert forall|m: int| hd < m < hd + 1 + j implies !(#[trigger] pline_at(l, m) is Header) by {
            assert(pline_at(l, hd + 1 + (m - hd - 1)) is Key);
        }
        lemma_section_before_after(l, hd, hd + 1 + j, "dependencies"@);
    }
    assert forall|m: int| 0 <= m < l.len() implies is_line(#[trigger] l[m]) && ends_in_newline(l[m]) by {
        if 1 <= m < nw {
            lemma_managed_line_is_line(ws[m - 1].1, ws[m - 1].2, ws[m - 1].2);
        } else if k > 0 && hd < m {
            lemma_managed_line_is_line(deps[m - hd - 1].1, deps[m - hd - 1].2, deps[m - hd - 1].2);
        }
    }
}

/// A managed line yard writes is not blank.
proof fn lemma_written_not_blank(t: Target)
    requires
        bare_key(t.1),
        plain_value(t.2),
    ensures
        !is_blank(written_line(t)),
{
    super::laws::lemma_managed_text(t.1, t.2, t.2);
    let tx = super::laws::managed_text(t.1, t.2, t.2);
    assert(tx[0] == t.1[0]);
    assert(super::lines::is_key_char(t.1[0]));
    lemma_skip_ws_run(tx, 0, 0);
}

/// Reconciling `a + b` is reconciling `a`, then `b`.
proof fn lemma_reconcile_all_add(lines: Seq<Seq<char>>, omits: Seq<Seq<char>>, a: Seq<Target>, b: Seq<Target>)
    ensures
        reconcile_all(lines, omits, a + b).0 == reconcile_all(reconcile_all(lines, omits, a).0, omits, b).0,
        reconcile_all(lines, omits, a + b).1 == reconcile_all(lines, omits, a).1 + reconcile_all(
            reconcile_all(lines, omits, a).0,
            omits,
            b,
        ).1,
    decreases b.len(),
{
    if b.len() == 0 {
        assert(a + b =~= a);
        assert(reconcile_all(lines, omits, a).1 + Seq::<crate::adaptors::Action>::empty() =~= reconcile_all(
            lines,
            omits,
            a,
        ).1);
    } else {
        lemma_reconcile_all_add(lines, omits, a, b.drop_last());
        assert((a + b).drop_last() =~= a + b.drop_last());
        assert((a + b).last() == b.last());
        let l0 = reconcile_all(lines, omits, a).0;
        let a0 = reconcile_all(lines, omits, a).1;
        let mid = reconcile_all(l0, omits, b.drop_last());
        let st = reconcile_target(mid.0, omits, b.last());
        assert(a0 + mid.1.push(st.1) =~= (a0 + mid.1).push(st.1));
    }
}

/// A table yard writes: its header and the written lines of its targets.
pub open spec fn block(s: Seq<char>, tgs: Seq<Target>) -> Seq<Seq<char>> {
    seq![header_line(s)] + written_lines(tgs)
}

/// What each line of a written table reads as.
#[verifier::spinoff_prover]
#[verifier::rlimit(40)]
proof fn lemma_block_plines(s: Seq<char>, tgs: Seq<Target>)
    requires
        is_valid_path(s),
        forall|i: int| 0 <= i < tgs.len() ==> bare_key((#[trigger] tgs[i]).1) && plain_value(tgs[i].2)
            && tgs[i].0 == s,
    ensures
        ({
            let b = block(s, tgs);
            &&& b.len() == tgs.len() + 1
            &&& pline_at(b, 0) == PLine::Header(s)
            &&& forall|i: int| 0 <= i < tgs.len() ==> key_at(b, 1 + i, #[trigger] tgs[i])
            &&& forall|m: int| 0 <= m < b.len() ==> is_line(#[trigger] b[m]) && ends_in_newline(b[m])
            &&& forall|m: int| 1 <= m < b.len() ==> !(#[trigger] pline_at(b, m) is Header) && !is_blank(b[m])
        }),
{
    let b = block(s, tgs);
    lemma_header_line(s);
    assert(b[0] == header_line(s));
    assert forall|i: int| 0 <= i < tgs.len() implies #[trigger] b[1 + i] == written_line(tgs[i]) by {
        assert(b[1 + i] == written_lines(tgs)[i]);
    }
    assert forall|i: int| 0 <= i < tgs.len() implies #[trigger] pline_at(b, 1 + i) matches PLine::Key {
        key,
        value,
        marker: Marker::Managed(dv),
        ..
    } && key == tgs[i].1 && value == tgs[i].2 && dv == tgs[i].2 by {
        assert(b[1 + i] == written_line(tgs[i]));
        law_managed_line_reads_back(tgs[i].1, tgs[i].2, tgs[i].2);
    }
    assert forall|i: int| 0 <= i < tgs.len() implies key_at(b, 1 + i, #[trigger] tgs[i]) by {
        assert forall|m: int| 0 < m < 1 + i implies !(#[trigger] pline_at(b, m) is Header) by {
            assert(pline_at(b, 1 + (m - 1)) is Key);
        }
        lemma_section_before_after(b, 0, 1 + i, s);
    }
    assert forall|m: int| 0 <= m < b.len() implies is_line(#[trigger] b[m]) && ends_in_newline(b[m]) by {
        if m >= 1 {
            assert(b[1 + (m - 1)] == written_line(tgs[m - 1]));
            lemma_managed_line_is_line(tgs[m - 1].1, tgs[m - 1].2, tgs[m - 1].2);
        }
    }
    assert forall|m: int| 1 <= m < b.len() implies !(#[trigger] pline_at(b, m) is Header) && !is_blank(b[m]) by {
        assert(pline_at(b, 1 + (m - 1)) is Key);
        assert(b[1 + (m - 1)] == written_line(tgs[m - 1]));
        lemma_written_not_blank(tgs[m - 1]);
    }
}

/// Writing a target into an empty file yields its table.
proof fn lemma_write_first(t: Target)
    requires
        is_valid_path(t.0),
    ensures
        reconcile_target(seq![], seq![], t).0 == block(t.0, seq![t]),
{
    let empty = Seq::<Seq<char>>::empty();
    let ml = managed_line(t.1, t.2, t.2);
    lemma_find_key_none(empty, t.0, t.1, 0);
    lemma_header_from_is(empty, t.0, 0, 0);
    assert(reconcile_target(empty, empty, t).0 == insert_key(empty, t.0, ml));
    assert(written_lines(seq![t]) =~= seq![ml]);
    assert(insert_key(empty, t.0, ml) =~= block(t.0, seq![t]));
}

/// Writing a new key of a table that ends the file appends its line.
#[verifier::spinoff_prover]
#[verifier::rlimit(40)]
proof fn lemma_write_next(s: Seq<char>, pre: Seq<Target>, t: Target)
    requires
        is_valid_path(s),
        forall|i: int| 0 <= i < pre.len() ==> bare_key((#[trigger] pre[i]).1) && plain_value(pre[i].2)
            && pre[i].0 == s,
        forall|i: int| 0 <= i < pre.len() ==> (#[trigger] pre[i]).1 != t.1,
        t.0 == s,
    ensures
        reconcile_target(block(s, pre), seq![], t).0 == block(s, pre.push(t)),
{
    let l = block(s, pre);
    let ml = managed_line(t.1, t.2, t.2);
    lemma_block_plines(s, pre);
    assert forall|m: int| 0 <= m < l.len() implies !#[trigger] is_key_line(l, m, t.0, t.1) by {
        if m >= 1 {
            assert(key_at(l, 1 + (m - 1), pre[m - 1]));
        }
    }
    lemma_find_key_none(l, t.0, t.1, 0);
    lemma_header_from_is(l, t.0, 0, 0);
    lemma_section_last_end(l, 1, 0);
    assert(reconcile_target(l, seq![], t).0 == insert_key(l, t.0, ml));
    if pre.len() == 0 {
        lemma_written_closed(s, t);
        assert(l[l.len() - 1] == header_line(s));
    } else {
        lemma_written_closed(s, pre[pre.len() - 1]);
        assert(l[l.len() - 1] == written_line(pre[pre.len() - 1]));
    }
    assert(super::reconcile::close_line(l, l.len() as int) == l);
    assert(insert_key(l, t.0, ml) == l.insert(l.len() as int, ml));
    assert(written_lines(pre.push(t)) =~= written_lines(pre).push(ml));
    assert(l.insert(l.len() as int, ml) =~= block(s, pre.push(t)));
}

/// Writing the `workspace` targets into an empty file yields their table.
proof fn lemma_write_ws(d: PixiIntent, i: int)
    requires
        intent_ok(d),
        1 <= i <= ws_targets(d).len(),
    ensures
        reconcile_all(seq![], seq![], ws_targets(d).take(i)).0 == block("workspace"@, ws_targets(d).take(i)),
    decreases i,
{
    let ws = ws_targets(d);
    lemma_targets_ok(d);
    lemma_names();
    let t = ws[i - 1];
    assert(ws.take(i).drop_last() =~= ws.take(i - 1));
    assert(ws.take(i).last() == t);
    if i == 1 {
        assert(ws.take(0) =~= Seq::<Target>::empty());
        lemma_write_first(t);
        assert(seq![t] =~= ws.take(1));
    } else {
        lemma_write_ws(d, i - 1);
        let pre = ws.take(i - 1);
        assert forall|j: int| 0 <= j < pre.len() implies bare_key((#[trigger] pre[j]).1) && plain_value(
            pre[j].2,
        ) && pre[j].0 == "workspace"@ by {
            assert(pre[j] == ws[j]);
        }
        assert forall|j: int| 0 <= j < pre.len() implies (#[trigger] pre[j]).1 != t.1 by {
            assert(pre[j] == ws[j]);
        }
        lemma_write_next("workspace"@, pre, t);
        assert(pre.push(t) =~= ws.take(i));
    }
}

/// Before the first dependency, no line is a dependency or its table's
/// header, and every line is terminated.
#[verifier::spinoff_prover]
#[verifier::rlimit(40)]
proof fn lemma_dep_first_facts(d: PixiIntent)
    requires
        intent_ok(d),
        dep_targets(d).len() > 0,
    ensures
        find_key_from(layout(d, 0), "dependencies"@, dep_targets(d)[0].1, 0) == -1,
        header_from(layout(d, 0), "dependencies"@, 0) == -1,
        layout(d, 0).len() > 0 ==> ends_in_newline(layout(d, 0).last()),
        layout(d, 0) == ws_block(d),
{
    let l = layout(d, 0);
    let ws = ws_targets(d);
    let t = dep_targets(d)[0];
    lemma_layout_index(d, 0);
    lemma_layout_plines(d, 0);
    lemma_targets_ok(d);
    lemma_names();
    assert forall|m: int| 0 <= m < l.len() implies !#[trigger] is_key_line(l, m, "dependencies"@, t.1) by {
        if m >= 1 {
            assert(key_at(l, 1 + (m - 1), ws[m - 1]));
        }
    }
    lemma_find_key_none(l, "dependencies"@, t.1, 0);
    assert forall|m: int| 0 <= m < l.len() implies #[trigger] pline_at(l, m) != PLine::Header(
        "dependencies"@,
    ) by {
        if m >= 1 {
            assert(key_at(l, 1 + (m - 1), ws[m - 1]));
        }
    }
    lemma_header_from_is(l, "dependencies"@, 0, l.len() as int);
    if l.len() > 0 {
        assert(ends_in_newline(l[l.len() - 1]));
    }
    assert(l =~= ws_block(d));
}

/// Writing the first dependency after the `workspace` table starts the
/// `dependencies` table at the end of the file.
#[verifier::rlimit(30)]
proof fn lemma_write_dep_first(d: PixiIntent)
    requires
        intent_ok(d),
        dep_targets(d).len() > 0,
    ensures
        reconcile_target(layout(d, 0), seq![], dep_targets(d)[0]).0 == layout(d, 1),
{
    let l = layout(d, 0);
    let t = dep_targets(d)[0];
    lemma_dep_first_facts(d);
    lemma_targets_ok(d);
    let ml = managed_line(t.1, t.2, t.2);
    assert(t.0 == "dependencies"@);
    assert(reconcile_target(l, seq![], t).0 == insert_key(l, t.0, ml));
    let sep: Seq<Seq<char>> = if l.len() > 0 { seq![seq!['\n']] } else { seq![] };
    assert(insert_key(l, t.0, ml) == l + sep + seq![seq!['['] + t.0 + seq![']', '\n'], ml]);
    assert(dep_targets(d).take(1) =~= seq![t]);
    assert(written_lines(seq![t]) =~= seq![ml]);
    assert(dep_head(d) =~= sep + seq![header_line("dependencies"@)]);
    assert(l + sep + seq![seq!['['] + t.0 + seq![']', '\n'], ml] =~= layout(d, 1));
}

/// Where a table runs to the end of a file that ends with a newline, a key
/// added to it goes at the end.
proof fn lemma_insert_at_end(l: Seq<Seq<char>>, section: Seq<char>, line: Seq<char>, hd: int)
    requires
        0 <= hd < l.len(),
        header_from(l, section, 0) == hd,
        section_last(l, hd + 1, hd) == l.len() - 1,
        super::reconcile::ends_nl(l[l.len() - 1]),
    ensures
        insert_key(l, section, line) == l.insert(l.len() as int, line),
{
    assert(super::reconcile::close_line(l, l.len() as int) == l);
}

/// The file written so far, once it holds a dependency, ends with a
/// newline.
proof fn lemma_layout_closed(d: PixiIntent, k: int)
    requires
        0 < k <= dep_targets(d).len(),
    ensures
        layout(d, k).len() > 0,
        super::reconcile::ends_nl(layout(d, k)[layout(d, k).len() - 1]),
{
    let l = layout(d, k);
    let deps = dep_targets(d);
    let wl = written_lines(deps.take(k));
    assert(l == ws_block(d) + (dep_head(d) + wl));
    assert(l[l.len() - 1] == wl[k - 1]);
    assert(wl[k - 1] == written_line(deps[k - 1]));
    lemma_written_closed("dependencies"@, deps[k - 1]);
}

/// Before a further dependency is written: the file lacks it, and the
/// `dependencies` table runs to the end of the file.
#[verifier::spinoff_prover]
#[verifier::rlimit(40)]
proof fn lemma_dep_next_facts(d: PixiIntent, k: int)
    requires
        intent_ok(d),
        0 < k < dep_targets(d).len(),
    ensures
        find_key_from(layout(d, k), "dependencies"@, dep_targets(d)[k].1, 0) == -1,
        0 <= dep_header_at(d) < layout(d, k).len(),
        header_from(layout(d, k), "dependencies"@, 0) == dep_header_at(d),
        section_last(layout(d, k), dep_header_at(d) + 1, dep_header_at(d)) == layout(d, k).len() - 1,
{
    let l = layout(d, k);
    let ws = ws_targets(d);
    let deps = dep_targets(d);
    let t = deps[k];
    let nw = ws_block(d).len() as int;
    let hd = dep_header_at(d);
    lemma_layout_index(d, k);
    lemma_layout_plines(d, k);
    lemma_targets_ok(d);
    lemma_names();
    assert forall|m: int| 0 <= m < l.len() implies !#[trigger] is_key_line(l, m, t.0, t.1) by {
        if 1 <= m < nw {
            assert(key_at(l, 1 + (m - 1), ws[m - 1]));
        } else if hd < m {
            assert(key_at(l, hd + 1 + (m - hd - 1), deps[m - hd - 1]));
        }
    }
    lemma_find_key_none(l, t.0, t.1, 0);
    assert forall|m: int| 0 <= m < hd implies #[trigger] pline_at(l, m) != PLine::Header(t.0) by {
        if 1 <= m < nw {
            assert(key_at(l, 1 + (m - 1), ws[m - 1]));
        }
    }
    lemma_header_from_is(l, t.0, 0, hd);
    assert forall|m: int| hd + 1 <= m < l.len() implies !(#[trigger] pline_at(l, m) is Header) && !is_blank(
        l[m],
    ) by {
        assert(key_at(l, hd + 1 + (m - hd - 1), deps[m - hd - 1]));
        assert(l[hd + 1 + (m - hd - 1)] == written_line(deps[m - hd - 1]));
        lemma_written_not_blank(deps[m - hd - 1]);
    }
    lemma_section_last_end(l, hd + 1, hd);
}

/// Writing a further dependency appends its line to the `dependencies`
/// table, which ends the file.
#[verifier::spinoff_prover]
#[verifier::rlimit(40)]
proof fn lemma_write_dep_next(d: PixiIntent, k: int)
    requires
        intent_ok(d),
        0 < k < dep_targets(d).len(),
    ensures
        reconcile_target(layout(d, k), seq![], dep_targets(d)[k]).0 == layout(d, k + 1),
{
    let l = layout(d, k);
    let deps = dep_targets(d);
    let t = deps[k];
    let hd = dep_header_at(d);
    let ml = managed_line(t.1, t.2, t.2);
    assert(t.0 == "dependencies"@);
    lemma_dep_next_facts(d, k);
    lemma_layout_closed(d, k);
    lemma_insert_at_end(l, t.0, ml, hd);
    assert(reconcile_target(l, seq![], t).0 == insert_key(l, t.0, ml));
    assert(deps.take(k + 1) =~= deps.take(k).push(t));
    assert(written_lines(deps.take(k + 1)) =~= written_lines(deps.take(k)).push(ml));
    assert(l.insert(l.len() as int, ml) =~= layout(d, k + 1));
}

/// Writing the first `k` dependencies after the `workspace` table.
proof fn lemma_write_deps(d: PixiIntent, k: int)
    requires
        intent_ok(d),
        0 <= k <= dep_targets(d).len(),
    ensures
        reconcile_all(ws_block(d), seq![], dep_targets(d).take(k)).0 == layout(d, k),
    decreases k,
{
    let deps = dep_targets(d);
    if k == 0 {
        assert(deps.take(0) =~= Seq::<Target>::empty());
        assert(layout(d, 0) =~= ws_block(d));
    } else {
        lemma_write_deps(d, k - 1);
        assert(deps.take(k).drop_last() =~= deps.take(k - 1));
        assert(deps.take(k).last() == deps[k - 1]);
        if k == 1 {
            lemma_write_dep_first(d);
        } else {
            lemma_write_dep_next(d, k - 1);
        }
    }
}

/// Where the written line of target `q` sits in the full layout.
pub open spec fn target_pos(d: PixiIntent, q: int) -> int {
    if q < ws_targets(d).len() {
        1 + q
    } else {
        dep_header_at(d) + 1 + (q - ws_targets(d).len())
    }
}

/// Every target's written line is the first line of its key in its table.
#[verifier::spinoff_prover]
#[verifier::rlimit(40)]
proof fn lemma_layout_find(d: PixiIntent, q: int)
    requires
        intent_ok(d),
        0 <= q < targets(d).len(),
    ensures
        ({
            let l = layout(d, dep_targets(d).len() as int);
            let t = targets(d)[q];
            &&& key_at(l, target_pos(d, q), t)
            &&& l[target_pos(d, q)] == written_line(t)
            &&& find_key_from(l, t.0, t.1, 0) == target_pos(d, q)
        }),
{
    let k = dep_targets(d).len() as int;
    let l = layout(d, k);
    let ws = ws_targets(d);
    let deps = dep_targets(d);
    let nw = ws_block(d).len() as int;
    let hd = dep_header_at(d);
    lemma_targets_split(d);
    lemma_layout_index(d, k);
    lemma_layout_plines(d, k);
    lemma_targets_ok(d);
    lemma_names();
    let t = targets(d)[q];
    let p = target_pos(d, q);
    if q < ws.len() {
        assert(t == ws[q]);
        assert(key_at(l, 1 + q, ws[q]));
        assert forall|m: int| 0 <= m < p implies !#[trigger] is_key_line(l, m, t.0, t.1) by {
            if m >= 1 {
                assert(key_at(l, 1 + (m - 1), ws[m - 1]));
            }
        }
    } else {
        let j = q - ws.len();
        assert(t == deps[j]);
        assert(key_at(l, hd + 1 + j, deps[j]));
        assert forall|m: int| 0 <= m < p implies !#[trigger] is_key_line(l, m, t.0, t.1) by {
            if 1 <= m < nw {
                assert(key_at(l, 1 + (m - 1), ws[m - 1]));
            } else if hd < m {
                assert(key_at(l, hd + 1 + (m - hd - 1), deps[m - hd - 1]));
            }
        }
    }
    lemma_find_key_is(l, t.0, t.1, 0, p);
}

/// Reconciling the targets against what yard wrote finds each in sync.
#[verifier::spinoff_prover]
#[verifier::rlimit(40)]
proof fn lemma_reread_all(d: PixiIntent, n: int)
    requires
        intent_ok(d),
        0 <= n <= targets(d).len(),
    ensures
        ({
            let l = layout(d, dep_targets(d).len() as int);
            let r = reconcile_all(l, seq![], targets(d).take(n));
            &&& r.0 == l
            &&& r.1.len() == n
            &&& forall|a: int| 0 <= a < n ==> #[trigger] r.1[a] is InSync
        }),
    decreases n,
{
    let l = layout(d, dep_targets(d).len() as int);
    let tg = targets(d);
    if n == 0 {
        assert(tg.take(0) =~= Seq::<Target>::empty());
    } else {
        lemma_reread_all(d, n - 1);
        assert(tg.take(n).drop_last() =~= tg.take(n - 1));
        assert(tg.take(n).last() == tg[n - 1]);
        lemma_layout_find(d, n - 1);
        lemma_targets_split(d);
        lemma_targets_ok(d);
        let t = tg[n - 1];
        if n - 1 < ws_targets(d).len() {
            assert(t == ws_targets(d)[n - 1]);
        } else {
            assert(t == dep_targets(d)[n - 1 - ws_targets(d).len()]);
        }
        law_written_key_in_sync(l, seq![], t);
        let prev = reconcile_all(l, seq![], tg.take(n - 1)).1;
        let r = reconcile_all(l, seq![], tg.take(n));
        assert(r.1 == prev.push(Action::InSync { key: key_path_of(t) }));
        assert forall|a: int| 0 <= a < n implies #[trigger] r.1[a] is InSync by {
            if a < n - 1 {
                assert(r.1[a] == prev[a]);
            }
        }
    }
}

/// Removal keeps every line it leaves alone, and reports nothing.
proof fn lemma_removal_keeps_all(l: Seq<Seq<char>>, tg: Seq<Target>, n: int)
    requires
        0 <= n <= l.len(),
        forall|m: int| 0 <= m < l.len() ==> #[trigger] removal_at(l, tg, m) == (seq![l[m]], Option::<Action>::None),
    ensures
        removal_upto(l, tg, n) == (l.take(n), Seq::<Action>::empty()),
    decreases n,
{
    if n == 0 {
        assert(l.take(0) =~= Seq::<Seq<char>>::empty());
    } else {
        lemma_removal_keeps_all(l, tg, n - 1);
        assert(removal_at(l, tg, n - 1) == (seq![l[n - 1]], Option::<Action>::None));
        assert(l.take(n - 1) + seq![l[n - 1]] =~= l.take(n));
    }
}

/// A line of what yard wrote from scratch: a header, the blank line, or the
/// written line of a target, in that target's table.
#[verifier::spinoff_prover]
#[verifier::rlimit(40)]
proof fn lemma_layout_line(d: PixiIntent, m: int) -> (q: int)
    requires
        intent_ok(d),
        0 <= m < layout(d, dep_targets(d).len() as int).len(),
    ensures
        ({
            let l = layout(d, dep_targets(d).len() as int);
            ||| pline_at(l, m) is Header
            ||| pline_at(l, m) is Other
            ||| (0 <= q < targets(d).len() && key_at(l, m, targets(d)[q]))
        }),
{
    let k = dep_targets(d).len() as int;
    let l = layout(d, k);
    let ws = ws_targets(d);
    let deps = dep_targets(d);
    let nw = ws_block(d).len() as int;
    let hd = dep_header_at(d);
    let tg = targets(d);
    lemma_targets_split(d);
    lemma_layout_index(d, k);
    lemma_layout_plines(d, k);
    if 1 <= m < nw {
        let i = m - 1;
        assert(key_at(l, 1 + i, ws[i]));
        assert(tg[i] == ws[i]);
        i
    } else if k > 0 && hd < m {
        let j = m - hd - 1;
        assert(key_at(l, hd + 1 + j, deps[j]));
        assert(tg[ws.len() + j] == deps[j]);
        ws.len() + j
    } else {
        0
    }
}

/// A line of what yard wrote from scratch is left alone by removal, is no
/// omit line, and carries no marker error.
#[verifier::spinoff_prover]
#[verifier::rlimit(40)]
proof fn lemma_layout_line_clean(d: PixiIntent, m: int)
    requires
        intent_ok(d),
        0 <= m < layout(d, dep_targets(d).len() as int).len(),
    ensures
        ({
            let l = layout(d, dep_targets(d).len() as int);
            &&& removal_at(l, targets(d), m) == (seq![l[m]], Option::<Action>::None)
            &&& !(pline_at(l, m) is Omit)
            &&& (pline_at(l, m) matches PLine::Key { value, marker: Marker::Managed(dv), .. } ==> value == dv)
            &&& !(pline_at(l, m) matches PLine::Key { marker: Marker::ManagedNoDefault, .. })
        }),
{
    let l = layout(d, dep_targets(d).len() as int);
    let tg = targets(d);
    let q = lemma_layout_line(d, m);
    if !(pline_at(l, m) is Header) && !(pline_at(l, m) is Other) {
        let t = tg[q];
        assert(key_at(l, m, t));
        assert(key_path(tg[q].0, tg[q].1) == key_path(t.0, t.1));
        assert(is_target_path(tg, key_path(t.0, t.1)));
    }
}

/// What yard wrote from scratch holds no marker error, no omit line, and
/// nothing that removal acts on.
#[verifier::spinoff_prover]
#[verifier::rlimit(40)]
proof fn lemma_layout_clean(d: PixiIntent)
    requires
        intent_ok(d),
    ensures
        ({
            let l = layout(d, dep_targets(d).len() as int);
            &&& marker_error_from(l, 0) is None
            &&& omit_args(l, l.len() as int) == Seq::<Seq<char>>::empty()
            &&& forall|m: int| 0 <= m < l.len() ==> #[trigger] removal_at(l, targets(d), m) == (
                seq![l[m]],
                Option::<Action>::None,
            )
            &&& line_run(l)
            &&& forall|m: int| 0 <= m < l.len() ==> ends_in_newline(#[trigger] l[m])
        }),
{
    let k = dep_targets(d).len() as int;
    let l = layout(d, k);
    lemma_layout_plines(d, k);
    assert forall|m: int| 0 <= m < l.len() implies #[trigger] removal_at(l, targets(d), m) == (
        seq![l[m]],
        Option::<Action>::None,
    ) && !(pline_at(l, m) is Omit) && (pline_at(l, m) matches PLine::Key {
        value,
        marker: Marker::Managed(dv),
        ..
    } ==> value == dv) && !(pline_at(l, m) matches PLine::Key { marker: Marker::ManagedNoDefault, .. }) by {
        lemma_layout_line_clean(d, m);
    }
    lemma_marker_clean(l, 0);
    lemma_no_omits(l, l.len() as int);
}

/// No marker error where every managed value matches its default.
proof fn lemma_marker_clean(l: Seq<Seq<char>>, j: int)
    requires
        0 <= j,
        forall|m: int| 0 <= m < l.len() ==> (#[trigger] pline_at(l, m) matches PLine::Key {
            value,
            marker: Marker::Managed(dv),
            ..
        } ==> value == dv) && !(pline_at(l, m) matches PLine::Key { marker: Marker::ManagedNoDefault, .. }),
    ensures
        marker_error_from(l, j) is None,
    decreases l.len() - j,
{
    if j < l.len() {
        lemma_marker_clean(l, j + 1);
    }
}

/// No omit arguments where no line is an omit line.
proof fn lemma_no_omits(l: Seq<Seq<char>>, n: int)
    requires
        0 <= n <= l.len(),
        forall|m: int| 0 <= m < l.len() ==> !(#[trigger] pline_at(l, m) is Omit),
    ensures
        omit_args(l, n) == Seq::<Seq<char>>::empty(),
    decreases n,
{
    if n > 0 {
        lemma_no_omits(l, n - 1);
        assert(!(pline_at(l, n - 1) is Omit));
    }
}

/// Writing the intent into an empty file yields the full layout.
proof fn lemma_write_all(d: PixiIntent)
    requires
        intent_ok(d),
    ensures
        reconcile_all(seq![], seq![], targets(d)).0 == layout(d, dep_targets(d).len() as int),
{
    let ws = ws_targets(d);
    let deps = dep_targets(d);
    lemma_targets_split(d);
    lemma_reconcile_all_add(seq![], seq![], ws, deps);
    if ws.len() == 0 {
        assert(ws =~= Seq::<Target>::empty());
        assert(ws_block(d) =~= Seq::<Seq<char>>::empty());
    } else {
        lemma_write_ws(d, ws.len() as int);
        assert(ws.take(ws.len() as int) =~= ws);
    }
    lemma_write_deps(d, deps.len() as int);
    assert(deps.take(deps.len() as int) =~= deps);
}

/// With no `pixi.toml` on disk, planning never fails, and it writes a file
/// exactly when yard wants some key.
pub proof fn law_no_file_plans(d: PixiIntent)
    ensures
        plan_pixi(d, None) is Ok,
        (plan_pixi(d, None)->Ok_0.contents is Some) == (targets(d).len() > 0),
{
    let empty = Seq::<Seq<char>>::empty();
    assert(lines_of(Seq::<char>::empty()) =~= empty);
}

/// What yard writes for an intent, with no file to start from, reads back
/// in sync: applying the same intent to it again writes the same text,
/// reports every key in sync and warns of nothing. This holds for intents
/// that want some key, whose texts are plain (no line breaks), whose
/// dependency names are bare keys and distinct, and whose written file the
/// TOML parser accepts.
#[verifier::spinoff_prover]
#[verifier::rlimit(40)]
pub proof fn law_fresh_file_reads_back(d: PixiIntent)
    requires
        intent_ok(d),
        targets(d).len() > 0,
        plan_pixi(d, plan_pixi(d, None)->Ok_0.contents) is Ok,
    ensures
        plan_pixi(d, None) is Ok,
        plan_pixi(d, None)->Ok_0.contents is Some,
        ({
            let first = plan_pixi(d, None)->Ok_0;
            let second = plan_pixi(d, first.contents)->Ok_0;
            &&& second.contents == first.contents
            &&& second.actions.len() == targets(d).len()
            &&& forall|k: int| 0 <= k < second.actions.len() ==> #[trigger] second.actions[k] is InSync
            &&& second.warnings.len() == 0
        }),
{
    law_no_file_plans(d);
    let tg = targets(d);
    let empty = Seq::<Seq<char>>::empty();
    assert(lines_of(Seq::<char>::empty()) =~= empty);
    lemma_write_all(d);
    let l = layout(d, dep_targets(d).len() as int);
    lemma_layout_clean(d);
    lemma_removal_keeps_all(l, tg, l.len() as int);
    assert(l.take(l.len() as int) =~= l);
    assert(omit_args(empty, 0) == empty);
    let first = plan_pixi(d, None)->Ok_0;
    assert(first.contents == Some(concat(l)));
    lemma_lines_of_concat(l);
    lemma_reread_all(d, tg.len() as int);
    assert(tg.take(tg.len() as int) =~= tg);
    let acts = reconcile_all(l, empty, tg).1;
    let second = plan_pixi(d, first.contents)->Ok_0;
    assert(omit_report(empty, tg) == (Seq::<Action>::empty(), Seq::<Seq<char>>::empty()));
    assert(second.actions == acts + Seq::<Action>::empty() + Seq::<Action>::empty());
    assert(acts + Seq::<Action>::empty() + Seq::<Action>::empty() =~= acts);
}

/// Where [`find_key_from`] finds nothing, no line is the key.
pub(crate) proof fn lemma_find_key_absent(l: Seq<Seq<char>>, section: Seq<char>, key: Seq<char>, j: int)
    requires
        0 <= j,
        find_key_from(l, section, key, j) < 0,
    ensures
        forall|m: int| j <= m < l.len() ==> !#[trigger] is_key_line(l, m, section, key),
    decreases l.len() - j,
{
    if j < l.len() {
        lemma_find_key_absent(l, section, key, j + 1);
    }
}

/// No header lies between a table's header and its last non-blank line.
proof fn lemma_section_last_no_header(lines: Seq<Seq<char>>, j: int, last: int)
    requires
        0 <= last < j,
    ensures
        forall|m: int| j <= m <= section_last(lines, j, last) ==> !(#[trigger] pline_at(lines, m) is Header),
        section_last(lines, j, last) < j ==> section_last(lines, j, last) == last,
    decreases lines.len() - j,
{
    if !(j >= lines.len() || pline_at(lines, j) is Header) {
        let nl = if is_blank(lines[j]) { last } else { j };
        lemma_section_last_no_header(lines, j + 1, nl);
    }
}

/// Where the table already has a header, the added line is the first line
/// of that key in the file.
#[verifier::spinoff_prover]
#[verifier::rlimit(40)]
pub(crate) proof fn lemma_added_in_table(lines: Seq<Seq<char>>, section: Seq<char>, key: Seq<char>, ml: Seq<char>)
    requires
        header_from(lines, section, 0) >= 0,
        forall|m: int| 0 <= m < lines.len() ==> !#[trigger] is_key_line(lines, m, section, key),
        classify_pline(strip_eol(ml)) is Key,
        classify_pline(strip_eol(ml))->key == key,
    ensures
        find_key_from(insert_key(lines, section, ml), section, key, 0) >= 0,
        insert_key(lines, section, ml)[find_key_from(insert_key(lines, section, ml), section, key, 0)] == ml,
        find_key_from(insert_key(lines, section, ml), section, key, 0) == section_last(
            lines,
            header_from(lines, section, 0) + 1,
            header_from(lines, section, 0),
        ) + 1,
{
    let after = insert_key(lines, section, ml);
    let h = header_from(lines, section, 0);
    super::laws::lemma_header_from(lines, section, 0);
    lemma_section_last_no_header(lines, h + 1, h);
    if h + 1 < lines.len() {
        super::laws::lemma_section_last(lines, h + 1, h);
    }
    let q = section_last(lines, h + 1, h) + 1;
    assert(0 <= h < q <= lines.len());
    let closed = super::reconcile::close_line(lines, q);
    super::laws::lemma_close_line(lines, q);
    assert(after == closed.insert(q, ml));
    assert(after[q] == ml);
    assert forall|k: int| 0 <= k < q implies #[trigger] pline_at(after, k) == pline_at(lines, k) by {
        assert(after[k] == closed[k]);
        assert(strip_eol(closed[k]) == strip_eol(lines[k]));
    }
    lemma_header_from_found(lines, section, 0);
    assert forall|m: int| h < m < q implies !(#[trigger] pline_at(after, m) is Header) by {
        assert(pline_at(after, m) == pline_at(lines, m));
    }
    lemma_section_before_after(after, h, q, section);
    assert forall|m: int| 0 <= m < q implies !#[trigger] is_key_line(after, m, section, key) by {
        super::laws::lemma_section_same_prefix(after, lines, m);
        assert(!is_key_line(lines, m, section, key));
    }
    lemma_find_key_is(after, section, key, 0, q);
}

/// Where the table has no header yet, the added line is the first line of
/// that key in the file.
#[verifier::spinoff_prover]
#[verifier::rlimit(40)]
pub(crate) proof fn lemma_added_new_table(lines: Seq<Seq<char>>, section: Seq<char>, key: Seq<char>, ml: Seq<char>)
    requires
        is_valid_path(section),
        header_from(lines, section, 0) < 0,
        forall|m: int| 0 <= m < lines.len() ==> !#[trigger] is_key_line(lines, m, section, key),
        classify_pline(strip_eol(ml)) is Key,
        classify_pline(strip_eol(ml))->key == key,
    ensures
        find_key_from(insert_key(lines, section, ml), section, key, 0) >= 0,
        insert_key(lines, section, ml)[find_key_from(insert_key(lines, section, ml), section, key, 0)] == ml,
        find_key_from(insert_key(lines, section, ml), section, key, 0) == insert_key(lines, section, ml).len() - 1,
{
    let after = insert_key(lines, section, ml);
    let fixed = if lines.len() > 0 && !super::reconcile::ends_nl(lines.last()) {
        lines.update(lines.len() - 1, lines.last().push('\n'))
    } else {
        lines
    };
    let sep: Seq<Seq<char>> = if lines.len() > 0 { seq![seq!['\n']] } else { seq![] };
    assert(after == fixed + sep + seq![header_line(section), ml]);
    let pos = after.len() - 1;
    lemma_header_line(section);
    lemma_blank_line();
    assert(after[pos] == ml);
    assert(after[pos - 1] == header_line(section));
    lemma_section_before_after(after, pos - 1, pos, section);
    assert forall|k: int| 0 <= k < lines.len() implies #[trigger] pline_at(after, k) == pline_at(lines, k) by {
        assert(after[k] == fixed[k]);
        if k == lines.len() - 1 && !super::reconcile::ends_nl(lines.last()) {
            super::laws::lemma_same_line_reads_same(fixed[k], lines[k]);
        }
    }
    assert forall|m: int| 0 <= m < pos implies !#[trigger] is_key_line(after, m, section, key) by {
        if m < lines.len() {
            super::laws::lemma_section_same_prefix(after, lines, m);
            assert(!is_key_line(lines, m, section, key));
        } else if m < pos - 1 {
            assert(after[m] == seq!['\n']);
        }
    }
    lemma_find_key_is(after, section, key, 0, pos);
}

/// A key yard adds to a file where it was missing reads back in sync:
/// reconciling the same target again leaves the file as it is and reports
/// it in sync. This holds for a target in a table with a valid name, with a
/// bare key and a plain value.
pub proof fn law_added_key_reads_back(lines: Seq<Seq<char>>, omits: Seq<Seq<char>>, tgt: Target)
    requires
        is_valid_path(tgt.0),
        bare_key(tgt.1),
        plain_value(tgt.2),
        find_key_from(lines, tgt.0, tgt.1, 0) < 0,
        !omits.contains(key_path_of(tgt)),
    ensures
        ({
            let after = reconcile_target(lines, omits, tgt).0;
            reconcile_target(after, omits, tgt) == (after, Action::InSync { key: key_path_of(tgt) })
        }),
{
    let (section, key, want) = tgt;
    let ml = managed_line(key, want, want);
    let after = reconcile_target(lines, omits, tgt).0;
    assert(after == insert_key(lines, section, ml));
    lemma_find_key_absent(lines, section, key, 0);
    law_managed_line_reads_back(key, want, want);
    if header_from(lines, section, 0) >= 0 {
        lemma_added_in_table(lines, section, key, ml);
    } else {
        lemma_added_new_table(lines, section, key, ml);
    }
    law_written_key_in_sync(after, omits, tgt);
}

/// What [`header_from`] finds is a header of that table.
proof fn lemma_header_from_found(lines: Seq<Seq<char>>, section: Seq<char>, j: int)
    requires
        0 <= j,
    ensures
        header_from(lines, section, j) >= 0 ==> pline_at(lines, header_from(lines, section, j)) == PLine::Header(
            section,
        ),
    decreases lines.len() - j,
{
    if j < lines.len() && pline_at(lines, j) != PLine::Header(section) {
        lemma_header_from_found(lines, section, j + 1);
    }
}

} // verus!
