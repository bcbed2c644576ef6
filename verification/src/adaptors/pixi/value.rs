//! The TOML values yard reads and writes in `pixi.toml`: basic strings
//! (`"..."`, with `\"` and `\\` escapes), literal strings (`'...'`) and
//! single-line arrays of them. yard writes basic strings only.
use vstd::prelude::*;

use crate::text::push_str;

verus! {

/// A value of a managed key.
pub enum Value {
    Str(Seq<char>),
    Arr(Seq<Seq<char>>),
}

/// Executable counterpart of [`Value`].
pub enum ExecValue {
    Str(Vec<char>),
    Arr(Vec<Vec<char>>),
}

impl ExecValue {
    pub open spec fn view(&self) -> Value {
        match self {
            ExecValue::Str(s) => Value::Str(s@),
            ExecValue::Arr(items) => Value::Arr(items@.map_values(|s: Vec<char>| s@)),
        }
    }
}

/// A space or a tab.
pub open spec fn is_ws(c: char) -> bool {
    c == ' ' || c == '\t'
}

/// First index at or after `i` that is not a space or tab.
pub open spec fn skip_ws(t: Seq<char>, i: int) -> int
    decreases t.len() - i,
{
    if i < 0 || i >= t.len() || !is_ws(t[i]) {
        i
    } else {
        skip_ws(t, i + 1)
    }
}

/// Reads the rest of a basic string whose opening quote came before `j`;
/// `acc` is what was decoded so far. Yields the string and the index after
/// the closing quote.
pub open spec fn string_body(t: Seq<char>, j: int, acc: Seq<char>) -> Option<(Seq<char>, int)>
    decreases t.len() - j,
{
    if j < 0 || j >= t.len() {
        None
    } else if t[j] == '"' {
        Some((acc, j + 1))
    } else if t[j] == '\\' {
        if j + 1 < t.len() && (t[j + 1] == '"' || t[j + 1] == '\\') {
            string_body(t, j + 2, acc.push(t[j + 1]))
        } else {
            None
        }
    } else if t[j] == '\n' || t[j] == '\r' {
        None
    } else {
        string_body(t, j + 1, acc.push(t[j]))
    }
}

/// Reads the rest of a literal string (no escapes) whose opening quote came
/// before `j`; `acc` is what was read so far. Yields the string and the
/// index after the closing quote.
pub open spec fn literal_body(t: Seq<char>, j: int, acc: Seq<char>) -> Option<(Seq<char>, int)>
    decreases t.len() - j,
{
    if j < 0 || j >= t.len() {
        None
    } else if t[j] == '\'' {
        Some((acc, j + 1))
    } else if t[j] == '\n' || t[j] == '\r' {
        None
    } else {
        literal_body(t, j + 1, acc.push(t[j]))
    }
}

/// A basic or literal string starting at `i`: its text and the index after
/// it.
pub open spec fn parse_string(t: Seq<char>, i: int) -> Option<(Seq<char>, int)> {
    if 0 <= i < t.len() && t[i] == '"' {
        string_body(t, i + 1, seq![])
    } else if 0 <= i < t.len() && t[i] == '\'' {
        literal_body(t, i + 1, seq![])
    } else {
        None
    }
}

/// Array items from `j` on, where an item or `]` is expected.
pub open spec fn array_items(t: Seq<char>, j: int, acc: Seq<Seq<char>>) -> Option<
    (Seq<Seq<char>>, int),
>
    decreases t.len() - j, 1int,
{
    let k = skip_ws(t, j);
    if k < j || k >= t.len() {
        None
    } else if t[k] == ']' {
        Some((acc, k + 1))
    } else {
        match parse_string(t, k) {
            Some((s, e)) => if e <= k || e > t.len() {
                None
            } else {
                array_rest(t, e, acc.push(s))
            },
            None => None,
        }
    }
}

/// Array items from `j` on, where `,` or `]` is expected.
pub open spec fn array_rest(t: Seq<char>, j: int, acc: Seq<Seq<char>>) -> Option<
    (Seq<Seq<char>>, int),
>
    decreases t.len() - j, 0int,
{
    let k = skip_ws(t, j);
    if k < j || k >= t.len() {
        None
    } else if t[k] == ']' {
        Some((acc, k + 1))
    } else if t[k] == ',' {
        array_items(t, k + 1, acc)
    } else {
        None
    }
}

/// A value starting at `i`: the value and the index after it.
pub open spec fn parse_value(t: Seq<char>, i: int) -> Option<(Value, int)> {
    if 0 <= i < t.len() && (t[i] == '"' || t[i] == '\'') {
        match parse_string(t, i) {
            Some((s, e)) => Some((Value::Str(s), e)),
            None => None,
        }
    } else if 0 <= i < t.len() && t[i] == '[' {
        match array_items(t, i + 1, seq![]) {
            Some((items, e)) => Some((Value::Arr(items), e)),
            None => None,
        }
    } else {
        None
    }
}

/// The escaped text of a string, without quotes.
pub open spec fn escape(s: Seq<char>) -> Seq<char>
    decreases s.len(),
{
    if s.len() == 0 {
        seq![]
    } else {
        let c = s.last();
        escape(s.drop_last()) + if c == '"' || c == '\\' {
            seq!['\\', c]
        } else {
            seq![c]
        }
    }
}

/// A string as a TOML basic string.
pub open spec fn quote(s: Seq<char>) -> Seq<char> {
    seq!['"'] + escape(s) + seq!['"']
}

/// Array items separated by `sep`.
pub open spec fn render_items(items: Seq<Seq<char>>, sep: Seq<char>) -> Seq<char>
    decreases items.len(),
{
    if items.len() == 0 {
        seq![]
    } else if items.len() == 1 {
        quote(items[0])
    } else {
        render_items(items.drop_last(), sep) + sep + quote(items.last())
    }
}

/// A value as written after `key = ` (`["a", "b"]` for arrays).
pub open spec fn render_value(v: Value) -> Seq<char> {
    match v {
        Value::Str(s) => quote(s),
        Value::Arr(items) => seq!['['] + render_items(items, ", "@) + seq![']'],
    }
}

/// A value as recorded in `default=` (`["a","b"]` for arrays).
pub open spec fn render_default(v: Value) -> Seq<char> {
    match v {
        Value::Str(s) => quote(s),
        Value::Arr(items) => seq!['['] + render_items(items, ","@) + seq![']'],
    }
}

/// Text a basic string can carry on one line: no newline or carriage
/// return.
pub open spec fn plain_text(s: Seq<char>) -> bool {
    forall|k: int| 0 <= k < s.len() ==> #[trigger] s[k] != '\n' && s[k] != '\r'
}

/// A value whose strings are all [`plain_text`].
pub open spec fn plain_value(v: Value) -> bool {
    match v {
        Value::Str(s) => plain_text(s),
        Value::Arr(items) => forall|k: int| 0 <= k < items.len() ==> plain_text(#[trigger] items[k]),
    }
}

/// One character, escaped.
pub open spec fn escape_char(c: char) -> Seq<char> {
    if c == '"' || c == '\\' {
        seq!['\\', c]
    } else {
        seq![c]
    }
}

/// Escaping distributes over concatenation.
proof fn lemma_escape_add(a: Seq<char>, b: Seq<char>)
    ensures
        escape(a + b) == escape(a) + escape(b),
    decreases b.len(),
{
    if b.len() == 0 {
        assert(a + b =~= a);
        assert(escape(a) + escape(b) =~= escape(a));
    } else {
        lemma_escape_add(a, b.drop_last());
        assert((a + b).drop_last() =~= a + b.drop_last());
        assert((a + b).last() == b.last());
        assert(escape(a) + escape(b.drop_last()) + escape_char(b.last()) =~= escape(a) + (escape(
            b.drop_last(),
        ) + escape_char(b.last())));
    }
}

/// The body of a written basic string reads back as its text.
proof fn lemma_string_body(t: Seq<char>, j: int, acc: Seq<char>, s: Seq<char>)
    requires
        plain_text(s),
        0 <= j,
        j + escape(s).len() + 1 <= t.len(),
        t.subrange(j, j + escape(s).len() + 1) == escape(s).push('"'),
    ensures
        string_body(t, j, acc) == Some((acc + s, j + escape(s).len() + 1)),
    decreases s.len(),
{
    let n = escape(s).len() as int;
    assert(t[j + n] == escape(s).push('"')[n]);
    if s.len() == 0 {
        assert(acc + s =~= acc);
    } else {
        let c = s[0];
        let rest = s.skip(1);
        assert(seq![c] + rest =~= s);
        lemma_escape_add(seq![c], rest);
        assert(seq![c].drop_last() =~= Seq::<char>::empty());
        assert(seq![c].last() == c);
        assert(escape(Seq::<char>::empty()) =~= Seq::<char>::empty());
        assert(escape(seq![c]) == escape(seq![c].drop_last()) + escape_char(c));
        assert(escape(seq![c]) =~= escape_char(c));
        let m = escape_char(c).len() as int;
        assert forall|k: int| 0 <= k < rest.len() implies #[trigger] rest[k] != '\n' && rest[k] != '\r' by {
            assert(rest[k] == s[k + 1]);
        }
        assert(t.subrange(j + m, j + n + 1) =~= escape(rest).push('"')) by {
            assert forall|k: int| 0 <= k < n + 1 - m implies t.subrange(j + m, j + n + 1)[k] == escape(
                rest,
            ).push('"')[k] by {
                assert(t.subrange(j, j + n + 1)[m + k] == t[j + m + k]);
                assert(escape(s).push('"')[m + k] == escape(rest).push('"')[k]);
            }
        }
        assert(t[j] == escape(s).push('"')[0]);
        lemma_string_body(t, j + m, acc.push(c), rest);
        assert(acc.push(c) + rest =~= acc + s);
        if c == '"' || c == '\\' {
            assert(t[j + 1] == escape(s).push('"')[1]);
        }
    }
}

/// A written basic string reads back as its text.
proof fn lemma_parse_string(t: Seq<char>, i: int, s: Seq<char>)
    requires
        plain_text(s),
        0 <= i,
        i + quote(s).len() <= t.len(),
        t.subrange(i, i + quote(s).len()) == quote(s),
    ensures
        parse_string(t, i) == Some((s, i + quote(s).len())),
{
    assert(t[i] == quote(s)[0]);
    assert(t.subrange(i + 1, i + quote(s).len()) =~= escape(s).push('"')) by {
        assert forall|k: int| 0 <= k < quote(s).len() - 1 implies t.subrange(i + 1, i + quote(s).len())[k]
            == escape(s).push('"')[k] by {
            assert(t.subrange(i, i + quote(s).len())[k + 1] == t[i + 1 + k]);
        }
    }
    lemma_string_body(t, i + 1, seq![], s);
    assert(Seq::<char>::empty() + s =~= s);
}

/// Written items, the first one split off.
proof fn lemma_render_items_prepend(x: Seq<char>, rest: Seq<Seq<char>>, sep: Seq<char>)
    requires
        rest.len() > 0,
    ensures
        render_items(seq![x] + rest, sep) == quote(x) + sep + render_items(rest, sep),
    decreases rest.len(),
{
    let all = seq![x] + rest;
    if rest.len() == 1 {
        assert(all.drop_last() =~= seq![x]);
        assert(all.last() == rest[0]);
        assert(seq![x][0] == x);
        assert(render_items(seq![x], sep) == quote(x));
        assert(render_items(rest, sep) == quote(rest[0]));
        assert(render_items(all, sep) == render_items(all.drop_last(), sep) + sep + quote(all.last()));
    } else {
        lemma_render_items_prepend(x, rest.drop_last(), sep);
        assert(all.drop_last() =~= seq![x] + rest.drop_last());
        assert(all.last() == rest.last());
        assert(quote(x) + sep + render_items(rest.drop_last(), sep) + sep + quote(rest.last()) =~= quote(x)
            + sep + (render_items(rest.drop_last(), sep) + sep + quote(rest.last())));
    }
}

/// Skipping a run of spaces and tabs stops at its end.
pub proof fn lemma_skip_ws_run(t: Seq<char>, j: int, k: int)
    requires
        0 <= j <= k <= t.len(),
        forall|m: int| j <= m < k ==> is_ws(#[trigger] t[m]),
        k < t.len() ==> !is_ws(t[k]),
    ensures
        skip_ws(t, j) == k,
    decreases k - j,
{
    if j < k {
        lemma_skip_ws_run(t, j + 1, k);
    }
}

/// Written array items, then `]`, read back as the items.
proof fn lemma_array_items(
    t: Seq<char>,
    j: int,
    k: int,
    acc: Seq<Seq<char>>,
    items: Seq<Seq<char>>,
    sep: Seq<char>,
)
    requires
        sep == ", "@ || sep == ","@,
        forall|m: int| 0 <= m < items.len() ==> plain_text(#[trigger] items[m]),
        0 <= j <= k,
        forall|m: int| j <= m < k ==> is_ws(#[trigger] t[m]),
        k + render_items(items, sep).len() + 1 <= t.len(),
        t.subrange(k, k + render_items(items, sep).len() + 1) == render_items(items, sep).push(']'),
    ensures
        array_items(t, j, acc) == Some((acc + items, k + render_items(items, sep).len() + 1)),
    decreases items.len(),
{
    reveal_strlit(", ");
    reveal_strlit(",");
    let r = render_items(items, sep);
    assert(t[k] == r.push(']')[0]);
    if items.len() == 0 {
        lemma_skip_ws_run(t, j, k);
        assert(acc + items =~= acc);
    } else {
        let x = items[0];
        let rest = items.skip(1);
        assert(seq![x] + rest =~= items);
        let q = quote(x).len() as int;
        assert(plain_text(items[0]));
        if rest.len() > 0 {
            lemma_render_items_prepend(x, rest, sep);
        } else {
            assert(items =~= seq![x]);
        }
        assert(r.subrange(0, q) =~= quote(x));
        assert(t.subrange(k, k + q) =~= quote(x)) by {
            assert forall|m: int| 0 <= m < q implies t.subrange(k, k + q)[m] == quote(x)[m] by {
                assert(t.subrange(k, k + r.len() + 1)[m] == t[k + m]);
                assert(r.push(']')[m] == r[m]);
            }
        }
        assert(quote(x)[0] == '"');
        lemma_skip_ws_run(t, j, k);
        lemma_parse_string(t, k, x);
        let e = k + q;
        assert(t[e] == r.push(']')[q]);
        lemma_skip_ws_run(t, e, e);
        if rest.len() == 0 {
            assert(acc.push(x) =~= acc + items);
        } else {
            let rr = render_items(rest, sep);
            let k2 = e + sep.len();
            assert(r =~= quote(x) + sep + rr);
            assert(t[e] == ',');
            assert forall|m: int| e + 1 <= m < k2 implies is_ws(#[trigger] t[m]) by {
                assert(t[m] == r.push(']')[m - k]);
            }
            assert(t.subrange(k2, k2 + rr.len() + 1) =~= rr.push(']')) by {
                assert forall|m: int| 0 <= m < rr.len() + 1 implies t.subrange(k2, k2 + rr.len() + 1)[m]
                    == rr.push(']')[m] by {
                    assert(t.subrange(k, k + r.len() + 1)[q + sep.len() + m] == t[k2 + m]);
                    assert(r.push(']')[q + sep.len() + m] == rr.push(']')[m]);
                }
            }
            assert forall|m: int| 0 <= m < rest.len() implies plain_text(#[trigger] rest[m]) by {
                assert(rest[m] == items[m + 1]);
            }
            lemma_array_items(t, e + 1, k2, acc.push(x), rest, sep);
            assert(acc.push(x) + rest =~= acc + items);
        }
    }
}

/// A written value reads back as itself, whatever follows it.
pub proof fn lemma_parse_value_written(t: Seq<char>, i: int, v: Value, default_form: bool)
    requires
        plain_value(v),
        0 <= i,
        ({
            let w = if default_form { render_default(v) } else { render_value(v) };
            i + w.len() <= t.len() && t.subrange(i, i + w.len()) == w
        }),
    ensures
        parse_value(t, i) == Some(
            (v, i + (if default_form { render_default(v) } else { render_value(v) }).len()),
        ),
{
    let w = if default_form { render_default(v) } else { render_value(v) };
    assert(t[i] == w[0]);
    match v {
        Value::Str(s) => {
            lemma_parse_string(t, i, s);
        },
        Value::Arr(items) => {
            let sep = if default_form { ","@ } else { ", "@ };
            let r = render_items(items, sep);
            assert(w =~= seq!['['] + r + seq![']']);
            assert(t.subrange(i + 1, i + 1 + r.len() + 1) =~= r.push(']')) by {
                assert forall|m: int| 0 <= m < r.len() + 1 implies t.subrange(i + 1, i + 1 + r.len() + 1)[m]
                    == r.push(']')[m] by {
                    assert(t.subrange(i, i + w.len())[m + 1] == t[i + 1 + m]);
                    assert(w[m + 1] == r.push(']')[m]);
                }
            }
            lemma_array_items(t, i + 1, i + 1, seq![], items, sep);
            assert(Seq::<Seq<char>>::empty() + items =~= items);
        },
    }
}

/// Skipping spaces and tabs moves forward, within the text.
pub proof fn lemma_skip_ws_bounds(t: Seq<char>, j: int)
    requires
        0 <= j,
    ensures
        j <= skip_ws(t, j),
        j <= t.len() ==> skip_ws(t, j) <= t.len(),
        skip_ws(t, j) < t.len() ==> !is_ws(t[skip_ws(t, j)]),
    decreases t.len() - j,
{
    if j < t.len() && is_ws(t[j]) {
        lemma_skip_ws_bounds(t, j + 1);
    }
}

/// A string body ends after it starts, within the text.
proof fn lemma_string_body_end(t: Seq<char>, j: int, acc: Seq<char>)
    requires
        0 <= j,
        string_body(t, j, acc) is Some,
    ensures
        j < string_body(t, j, acc)->Some_0.1 <= t.len(),
    decreases t.len() - j,
{
    if t[j] == '\\' {
        lemma_string_body_end(t, j + 2, acc.push(t[j + 1]));
    } else if t[j] != '"' {
        lemma_string_body_end(t, j + 1, acc.push(t[j]));
    }
}

/// A literal string body ends after it starts, within the text.
proof fn lemma_literal_body_end(t: Seq<char>, j: int, acc: Seq<char>)
    requires
        0 <= j,
        literal_body(t, j, acc) is Some,
    ensures
        j < literal_body(t, j, acc)->Some_0.1 <= t.len(),
    decreases t.len() - j,
{
    if t[j] != '\'' {
        lemma_literal_body_end(t, j + 1, acc.push(t[j]));
    }
}

/// A string read from `i` ends after it starts, within the text.
proof fn lemma_parse_string_end(t: Seq<char>, i: int)
    requires
        0 <= i,
        parse_string(t, i) is Some,
    ensures
        i < parse_string(t, i)->Some_0.1 <= t.len(),
{
    if t[i] == '"' {
        lemma_string_body_end(t, i + 1, seq![]);
    } else {
        lemma_literal_body_end(t, i + 1, seq![]);
    }
}

/// Array items end after they start, within the text.
proof fn lemma_array_items_end(t: Seq<char>, j: int, acc: Seq<Seq<char>>)
    requires
        0 <= j,
        array_items(t, j, acc) is Some,
    ensures
        j < array_items(t, j, acc)->Some_0.1 <= t.len(),
    decreases t.len() - j, 1int,
{
    lemma_skip_ws_bounds(t, j);
    let k = skip_ws(t, j);
    if t[k] != ']' {
        let (s, e) = parse_string(t, k)->Some_0;
        lemma_parse_string_end(t, k);
        lemma_array_rest_end(t, e, acc.push(s));
    }
}

/// The rest of an array ends after it starts, within the text.
proof fn lemma_array_rest_end(t: Seq<char>, j: int, acc: Seq<Seq<char>>)
    requires
        0 <= j,
        array_rest(t, j, acc) is Some,
    ensures
        j < array_rest(t, j, acc)->Some_0.1 <= t.len(),
    decreases t.len() - j, 0int,
{
    lemma_skip_ws_bounds(t, j);
    let k = skip_ws(t, j);
    if t[k] == ',' {
        lemma_array_items_end(t, k + 1, acc);
    }
}

/// A value read from `i` ends after it starts, within the text.
pub proof fn lemma_parse_value_end(t: Seq<char>, i: int)
    requires
        0 <= i,
        parse_value(t, i) is Some,
    ensures
        i < parse_value(t, i)->Some_0.1 <= t.len(),
{
    if t[i] == '"' || t[i] == '\'' {
        lemma_parse_string_end(t, i);
    } else {
        lemma_array_items_end(t, i + 1, seq![]);
    }
}

pub fn is_ws_exec(c: char) -> (r: bool)
    ensures
        r == is_ws(c),
{
    c == ' ' || c == '\t'
}

/// First index at or after `i` that is not a space or tab.
pub fn skip_ws_exec(t: &Vec<char>, i: usize) -> (r: usize)
    requires
        i <= t.len(),
    ensures
        r == skip_ws(t@, i as int),
        i <= r <= t.len(),
{
    let mut j = i;
    while j < t.len() && is_ws_exec(t[j])
        invariant
            i <= j <= t.len(),
            skip_ws(t@, i as int) == skip_ws(t@, j as int),
        decreases t.len() - j,
    {
        j += 1;
    }
    j
}

/// A basic string starting at `i`.
pub fn parse_string_exec(t: &Vec<char>, i: usize) -> (r: Option<(Vec<char>, usize)>)
    requires
        i <= t.len(),
    ensures
        match r {
            Some((s, e)) => parse_string(t@, i as int) == Some((s@, e as int)) && i < e <= t.len(),
            None => parse_string(t@, i as int) is None,
        },
{
    if i < t.len() && t[i] == '\'' {
        let mut acc: Vec<char> = Vec::new();
        let mut j = i + 1;
        while j < t.len()
            invariant
                i < j <= t.len(),
                parse_string(t@, i as int) == literal_body(t@, j as int, acc@),
            decreases t.len() - j,
        {
            let c = t[j];
            if c == '\'' {
                return Some((acc, j + 1));
            } else if c == '\n' || c == '\r' {
                return None;
            } else {
                acc.push(c);
                j += 1;
            }
        }
        return None;
    }
    if i >= t.len() || t[i] != '"' {
        return None;
    }
    let mut acc: Vec<char> = Vec::new();
    let mut j = i + 1;
    while j < t.len()
        invariant
            i < j <= t.len(),
            parse_string(t@, i as int) == string_body(t@, j as int, acc@),
        decreases t.len() - j,
    {
        let c = t[j];
        if c == '"' {
            return Some((acc, j + 1));
        } else if c == '\\' {
            if j + 1 < t.len() && (t[j + 1] == '"' || t[j + 1] == '\\') {
                acc.push(t[j + 1]);
                j += 2;
            } else {
                return None;
            }
        } else if c == '\n' || c == '\r' {
            return None;
        } else {
            acc.push(c);
            j += 1;
        }
    }
    None
}

/// A value starting at `i`.
pub fn parse_value_exec(t: &Vec<char>, i: usize) -> (r: Option<(ExecValue, usize)>)
    requires
        i <= t.len(),
    ensures
        match r {
            Some((v, e)) => parse_value(t@, i as int) == Some((v@, e as int)) && i < e <= t.len(),
            None => parse_value(t@, i as int) is None,
        },
{
    if i < t.len() && (t[i] == '"' || t[i] == '\'') {
        match parse_string_exec(t, i) {
            Some((s, e)) => Some((ExecValue::Str(s), e)),
            None => None,
        }
    } else if i < t.len() && t[i] == '[' {
        let mut items: Vec<Vec<char>> = Vec::new();
        let mut j = i + 1;
        // `expect_item`: an item or `]` comes next; otherwise `,` or `]`.
        let mut expect_item = true;
        assert(items@.map_values(|s: Vec<char>| s@) =~= Seq::<Seq<char>>::empty());
        while j < t.len()
            invariant
                i < j <= t.len(),
                t@[i as int] == '[',
                array_items(t@, i + 1, seq![]) == if expect_item {
                    array_items(t@, j as int, items@.map_values(|s: Vec<char>| s@))
                } else {
                    array_rest(t@, j as int, items@.map_values(|s: Vec<char>| s@))
                },
            decreases t.len() - j, if expect_item { 1int } else { 0int },
        {
            let k = skip_ws_exec(t, j);
            let ghost iv = items@.map_values(|s: Vec<char>| s@);
            if k >= t.len() {
                return None;
            }
            if t[k] == ']' {
                return Some((ExecValue::Arr(items), k + 1));
            }
            if expect_item {
                match parse_string_exec(t, k) {
                    Some((s, e)) => {
                        let ghost iv = items@.map_values(|s: Vec<char>| s@);
                        items.push(s);
                        assert(items@.map_values(|s: Vec<char>| s@) =~= iv.push(items@.last()@));
                        j = e;
                        expect_item = false;
                    },
                    None => {
                        return None;
                    },
                }
            } else {
                if t[k] == ',' {
                    j = k + 1;
                    expect_item = true;
                } else {
                    return None;
                }
            }
        }
        proof {
            if expect_item {
                assert(skip_ws(t@, j as int) == j);
            } else {
                assert(skip_ws(t@, j as int) == j);
            }
        }
        None
    } else {
        None
    }
}

/// Appends `s`, escaped, to `out`.
fn push_escaped(out: &mut Vec<char>, s: &Vec<char>)
    ensures
        final(out)@ == old(out)@ + escape(s@),
{
    let mut i: usize = 0;
    assert(escape(s@.take(0)) =~= Seq::<char>::empty());
    assert(old(out)@ + Seq::<char>::empty() =~= old(out)@);
    while i < s.len()
        invariant
            i <= s.len(),
            out@ == old(out)@ + escape(s@.take(i as int)),
        decreases s.len() - i,
    {
        let c = s[i];
        let ghost before = out@;
        assert(s@.take(i + 1).drop_last() =~= s@.take(i as int));
        assert(s@.take(i + 1).last() == c);
        if c == '"' || c == '\\' {
            out.push('\\');
            out.push(c);
            assert(out@ =~= before + seq!['\\', c]);
        } else {
            out.push(c);
            assert(out@ =~= before + seq![c]);
        }
        i += 1;
    }
    assert(s@.take(s.len() as int) =~= s@);
}

/// Appends `s` as a TOML basic string to `out`.
pub fn push_quoted(out: &mut Vec<char>, s: &Vec<char>)
    ensures
        final(out)@ == old(out)@ + quote(s@),
{
    let ghost start = out@;
    out.push('"');
    push_escaped(out, s);
    out.push('"');
    assert(out@ =~= start + quote(s@));
}

/// Appends `items` separated by `sep` to `out`.
fn push_items(out: &mut Vec<char>, items: &Vec<Vec<char>>, sep: &str)
    ensures
        final(out)@ == old(out)@ + render_items(items@.map_values(|s: Vec<char>| s@), sep@),
{
    let ghost iv = items@.map_values(|s: Vec<char>| s@);
    let mut i: usize = 0;
    assert(iv.take(0) =~= Seq::<Seq<char>>::empty());
    assert(old(out)@ + Seq::<char>::empty() =~= old(out)@);
    while i < items.len()
        invariant
            i <= items.len(),
            iv == items@.map_values(|s: Vec<char>| s@),
            out@ == old(out)@ + render_items(iv.take(i as int), sep@),
        decreases items.len() - i,
    {
        let ghost before = out@;
        assert(iv.take(i + 1).drop_last() =~= iv.take(i as int));
        assert(iv.take(i + 1).last() == items@[i as int]@);
        if i > 0 {
            push_str(out, sep);
        }
        push_quoted(out, &items[i]);
        proof {
            if i == 0 {
                assert(render_items(iv.take(1), sep@) == quote(iv[0]));
                assert(out@ =~= before + quote(iv[0]));
            } else {
                assert(out@ =~= before + sep@ + quote(items@[i as int]@));
            }
        }
        i += 1;
    }
    assert(iv.take(items.len() as int) =~= iv);
}

/// Appends `v` as written after `key = ` (`compact == false`) or as
/// recorded in `default=` (`compact == true`).
pub fn push_value(out: &mut Vec<char>, v: &ExecValue, compact: bool)
    ensures
        final(out)@ == old(out)@ + if compact {
            render_default(v@)
        } else {
            render_value(v@)
        },
{
    match v {
        ExecValue::Str(s) => push_quoted(out, s),
        ExecValue::Arr(items) => {
            let ghost start = out@;
            out.push('[');
            if compact {
                push_items(out, items, ",");
            } else {
                push_items(out, items, ", ");
            }
            out.push(']');
            assert(out@ =~= start + if compact {
                render_default(v@)
            } else {
                render_value(v@)
            });
        },
    }
}

} // verus!
