//! Character-level text utilities shared by the adaptors.
//!
//! Adaptors reason about file contents as sequences of `char`s. These helpers
//! move text between `&str`/`String` and `Vec<char>`, split text into lines,
//! and define the spec-level vocabulary (lines, prefixes, concatenation) used
//! by the adaptors' contracts.
use vstd::prelude::*;

verus! {

/// `String::push` appends one character.
pub assume_specification[ String::push ](s: &mut String, ch: char)
    ensures
        final(s)@ == old(s)@.push(ch),
;

/// Index just past the line that starts at `i`: past its `'\n'`, or the end
/// of the text when the line has no terminator.
pub open spec fn line_end(s: Seq<char>, i: int) -> int
    decreases s.len() - i,
{
    if i >= s.len() {
        s.len() as int
    } else if s[i] == '\n' {
        i + 1
    } else {
        line_end(s, i + 1)
    }
}

/// The lines of `s[i..]`, each with its `'\n'` terminator (the last line may
/// lack one). This is what `str::split_inclusive('\n')` yields.
pub open spec fn lines_from(s: Seq<char>, i: int) -> Seq<Seq<char>>
    decreases s.len() - i,
{
    if i < 0 || i >= s.len() {
        seq![]
    } else {
        let e = line_end(s, i);
        if e <= i || e > s.len() {
            seq![]
        } else {
            seq![s.subrange(i, e)] + lines_from(s, e)
        }
    }
}

/// The lines of `s`.
pub open spec fn lines_of(s: Seq<char>) -> Seq<Seq<char>> {
    lines_from(s, 0)
}

/// Concatenation of a sequence of texts.
pub open spec fn concat(ls: Seq<Seq<char>>) -> Seq<char>
    decreases ls.len(),
{
    if ls.len() == 0 {
        seq![]
    } else {
        concat(ls.drop_last()) + ls.last()
    }
}

/// `t` with one trailing `'\n'` removed, if it has one.
pub open spec fn strip_newline(t: Seq<char>) -> Seq<char> {
    if t.len() > 0 && t.last() == '\n' {
        t.drop_last()
    } else {
        t
    }
}

/// `t` with one trailing `'\r'` removed, if it has one.
pub open spec fn strip_cr(t: Seq<char>) -> Seq<char> {
    if t.len() > 0 && t.last() == '\r' {
        t.drop_last()
    } else {
        t
    }
}

/// A line without its terminator (`"\n"` or `"\r\n"`).
pub open spec fn strip_eol(line: Seq<char>) -> Seq<char> {
    strip_cr(strip_newline(line))
}

/// `p` is a prefix of `t`.
pub open spec fn starts_with(t: Seq<char>, p: Seq<char>) -> bool {
    p.len() <= t.len() && t.subrange(0, p.len() as int) == p
}

/// `p` is a suffix of `t`.
pub open spec fn ends_with(t: Seq<char>, p: Seq<char>) -> bool {
    p.len() <= t.len() && t.subrange(t.len() - p.len(), t.len() as int) == p
}

/// `c` does not occur in `t`.
pub open spec fn free_of(t: Seq<char>, c: char) -> bool {
    forall|k: int| 0 <= k < t.len() ==> t[k] != c
}

/// The lines of `s[i..]` put back together give `s[i..]`.
pub proof fn lemma_lines_from_concat(s: Seq<char>, i: int)
    requires
        0 <= i <= s.len(),
    ensures
        concat(lines_from(s, i)) == s.subrange(i, s.len() as int),
    decreases s.len() - i,
{
    if i >= s.len() {
        assert(s.subrange(i, s.len() as int) =~= seq![]);
    } else {
        lemma_line_end_bounds(s, i);
        let e = line_end(s, i);
        lemma_lines_from_concat(s, e);
        let rest = lines_from(s, e);
        let all = seq![s.subrange(i, e)] + rest;
        lemma_concat_prepend(s.subrange(i, e), rest);
        assert(concat(all) == s.subrange(i, e) + concat(rest));
        assert(s.subrange(i, e) + s.subrange(e, s.len() as int) =~= s.subrange(i, s.len() as int));
    }
}

/// The lines of `s` put back together give `s`.
pub proof fn lemma_lines_concat(s: Seq<char>)
    ensures
        concat(lines_of(s)) == s,
{
    lemma_lines_from_concat(s, 0);
    assert(s.subrange(0, s.len() as int) =~= s);
}

/// A line ends strictly after it starts, within the text.
pub proof fn lemma_line_end_bounds(s: Seq<char>, i: int)
    requires
        0 <= i < s.len(),
    ensures
        i < line_end(s, i) <= s.len(),
        forall|k: int| i <= k < line_end(s, i) - 1 ==> s[k] != '\n',
        line_end(s, i) < s.len() ==> s[line_end(s, i) - 1] == '\n',
    decreases s.len() - i,
{
    if s[i] != '\n' {
        assert(line_end(s, i) == line_end(s, i + 1));
        if i + 1 < s.len() {
            lemma_line_end_bounds(s, i + 1);
        }
    }
}

/// Without a `'\n'` between `i` and `j`, the lines starting at both end alike.
pub proof fn lemma_line_end_skip(s: Seq<char>, i: int, j: int)
    requires
        0 <= i <= j <= s.len(),
        forall|k: int| i <= k < j ==> s[k] != '\n',
    ensures
        line_end(s, i) == line_end(s, j),
    decreases j - i,
{
    if i < j {
        lemma_line_end_skip(s, i + 1, j);
    }
}

/// Concatenation distributes over a prepended element.
pub proof fn lemma_concat_prepend(a: Seq<char>, ls: Seq<Seq<char>>)
    ensures
        concat(seq![a] + ls) == a + concat(ls),
    decreases ls.len(),
{
    if ls.len() == 0 {
        assert(seq![a] + ls =~= seq![a]);
        assert(seq![a].drop_last() =~= Seq::<Seq<char>>::empty());
        assert(concat(Seq::<Seq<char>>::empty()) == Seq::<char>::empty());
        assert(concat(seq![a]) == concat(seq![a].drop_last()) + a);
        assert(Seq::<char>::empty() + a =~= a);
        assert(a + Seq::<char>::empty() =~= a);
    } else {
        let l2 = ls.drop_last();
        lemma_concat_prepend(a, l2);
        assert((seq![a] + ls).drop_last() =~= seq![a] + l2);
        assert((seq![a] + ls).last() == ls.last());
        assert(a + concat(l2) + ls.last() =~= a + (concat(l2) + ls.last()));
    }
}

/// `l` is one line: non-empty, with no `'\n'` except possibly at its end.
pub open spec fn is_line(l: Seq<char>) -> bool {
    l.len() > 0 && forall|k: int| 0 <= k < l.len() - 1 ==> l[k] != '\n'
}

/// `t` is non-empty and ends with `'\n'`.
pub open spec fn ends_in_newline(t: Seq<char>) -> bool {
    t.len() > 0 && t.last() == '\n'
}

/// `ls` is a run of lines as a text splits into: each one line, every one
/// but the last terminated.
pub open spec fn line_run(ls: Seq<Seq<char>>) -> bool {
    &&& forall|k: int| 0 <= k < ls.len() ==> is_line(#[trigger] ls[k])
    &&& forall|k: int| 0 <= k < ls.len() - 1 ==> ends_in_newline(#[trigger] ls[k])
}

/// Lines of `a + b` starting inside a terminated `a` end where they end in `a`.
proof fn lemma_line_end_prefix(a: Seq<char>, b: Seq<char>, i: int)
    requires
        0 <= i < a.len(),
        a.last() == '\n',
    ensures
        line_end(a + b, i) == line_end(a, i),
    decreases a.len() - i,
{
    if a[i] != '\n' {
        lemma_line_end_prefix(a, b, i + 1);
    }
}

/// Line ends in `a + b` past `a` are those of `b`, shifted.
proof fn lemma_line_end_shift(a: Seq<char>, b: Seq<char>, j: int)
    requires
        0 <= j <= b.len(),
    ensures
        line_end(a + b, a.len() + j) == a.len() + line_end(b, j),
    decreases b.len() - j,
{
    if j < b.len() && b[j] != '\n' {
        lemma_line_end_shift(a, b, j + 1);
    }
}

/// Lines of `a + b` past `a` are those of `b`.
proof fn lemma_lines_from_shift(a: Seq<char>, b: Seq<char>, j: int)
    requires
        0 <= j <= b.len(),
    ensures
        lines_from(a + b, a.len() + j) == lines_from(b, j),
    decreases b.len() - j,
{
    if j < b.len() {
        lemma_line_end_shift(a, b, j);
        lemma_line_end_bounds(b, j);
        let e = line_end(b, j);
        lemma_lines_from_shift(a, b, e);
        assert((a + b).subrange(a.len() + j, a.len() + e) =~= b.subrange(j, e));
    }
}

/// Lines of `a + b` from inside a terminated `a`.
proof fn lemma_lines_from_append(a: Seq<char>, b: Seq<char>, i: int)
    requires
        0 <= i <= a.len(),
        a.len() > 0 ==> a.last() == '\n',
    ensures
        lines_from(a + b, i) == lines_from(a, i) + lines_of(b),
    decreases a.len() - i,
{
    if i == a.len() {
        lemma_lines_from_shift(a, b, 0);
        assert(lines_from(a, i) =~= Seq::<Seq<char>>::empty());
        assert(lines_from(a, i) + lines_of(b) =~= lines_of(b));
    } else {
        lemma_line_end_prefix(a, b, i);
        lemma_line_end_bounds(a, i);
        let e = line_end(a, i);
        lemma_lines_from_append(a, b, e);
        assert((a + b).subrange(i, e) =~= a.subrange(i, e));
        assert(seq![a.subrange(i, e)] + (lines_from(a, e) + lines_of(b)) =~= (seq![a.subrange(i, e)]
            + lines_from(a, e)) + lines_of(b));
    }
}

/// The lines of `a + b`, `a` empty or terminated, are those of `a` then `b`.
pub proof fn lemma_lines_of_append(a: Seq<char>, b: Seq<char>)
    requires
        a.len() > 0 ==> a.last() == '\n',
    ensures
        lines_of(a + b) == lines_of(a) + lines_of(b),
{
    lemma_lines_from_append(a, b, 0);
}

/// A single line splits into itself.
pub proof fn lemma_lines_of_line(l: Seq<char>)
    requires
        is_line(l),
    ensures
        lines_of(l) == seq![l],
{
    lemma_line_end_skip(l, 0, l.len() - 1);
    lemma_line_end_bounds(l, l.len() - 1);
    assert(l.subrange(0, l.len() as int) =~= l);
    assert(lines_from(l, l.len() as int) =~= Seq::<Seq<char>>::empty());
    assert(seq![l] + Seq::<Seq<char>>::empty() =~= seq![l]);
}

/// A run of lines put together splits back into the same lines.
pub proof fn lemma_lines_of_concat(ls: Seq<Seq<char>>)
    requires
        line_run(ls),
    ensures
        lines_of(concat(ls)) == ls,
    decreases ls.len(),
{
    if ls.len() == 0 {
        assert(lines_of(seq![]) =~= Seq::<Seq<char>>::empty());
    } else {
        let front = ls.drop_last();
        assert(line_run(front)) by {
            assert forall|k: int| 0 <= k < front.len() implies is_line(#[trigger] front[k]) by {
                assert(front[k] == ls[k]);
            }
            assert forall|k: int| 0 <= k < front.len() - 1 implies ends_in_newline(
                #[trigger] front[k],
            ) by {
                assert(front[k] == ls[k]);
            }
        }
        lemma_lines_of_concat(front);
        if front.len() > 0 {
            lemma_concat_last(front);
            assert(ends_in_newline(ls[front.len() - 1]));
        }
        assert(is_line(ls[ls.len() - 1]));
        lemma_lines_of_append(concat(front), ls.last());
        lemma_lines_of_line(ls.last());
        assert(ls =~= front + seq![ls.last()]);
    }
}

/// A concatenation ends as its last non-empty piece does.
pub proof fn lemma_concat_last(ls: Seq<Seq<char>>)
    requires
        ls.len() > 0,
        ls.last().len() > 0,
    ensures
        concat(ls).len() > 0,
        concat(ls).last() == ls.last().last(),
{
}

/// The lines of any text form a run of lines; a terminated text has only
/// terminated lines.
pub proof fn lemma_lines_from_run(s: Seq<char>, i: int)
    requires
        0 <= i <= s.len(),
    ensures
        line_run(lines_from(s, i)),
        ends_in_newline(s) ==> forall|k: int|
            0 <= k < lines_from(s, i).len() ==> ends_in_newline(#[trigger] lines_from(s, i)[k]),
        i < s.len() ==> lines_from(s, i).len() > 0,
    decreases s.len() - i,
{
    if i < s.len() {
        lemma_line_end_bounds(s, i);
        let e = line_end(s, i);
        lemma_lines_from_run(s, e);
        let l = s.subrange(i, e);
        let rest = lines_from(s, e);
        let all = seq![l] + rest;
        assert(is_line(l));
        assert(e < s.len() ==> ends_in_newline(l));
        if e == s.len() {
            assert(rest =~= Seq::<Seq<char>>::empty());
            assert(ends_in_newline(s) ==> ends_in_newline(l));
        }
        assert forall|k: int| 0 <= k < all.len() implies is_line(#[trigger] all[k]) by {
            if k > 0 {
                assert(all[k] == rest[k - 1]);
            }
        }
        assert forall|k: int| 0 <= k < all.len() - 1 implies ends_in_newline(#[trigger] all[k]) by {
            if k > 0 {
                assert(all[k] == rest[k - 1]);
            }
        }
        assert forall|k: int| ends_in_newline(s) && 0 <= k < all.len() implies ends_in_newline(
            #[trigger] all[k],
        ) by {
            if k > 0 {
                assert(all[k] == rest[k - 1]);
            }
        }
    }
}

/// The characters of `s`, in order.
pub fn chars_of(s: &str) -> (v: Vec<char>)
    ensures
        v@ == s@,
{
    broadcast use vstd::string::group_string_axioms;

    let mut v: Vec<char> = Vec::new();
    for c in it: s.chars()
        invariant
            v@ == it.seq().take(it.index() as int),
    {
        v.push(c);
    }
    v
}

/// A `String` holding exactly the characters of `v`.
pub fn string_of(v: &Vec<char>) -> (s: String)
    ensures
        s@ == v@,
{
    let mut s = String::new();
    let mut i: usize = 0;
    while i < v.len()
        invariant
            i <= v.len(),
            s@ == v@.take(i as int),
        decreases v.len() - i,
    {
        s.push(v[i]);
        i += 1;
        assert(v@.take(i as int) == v@.take((i - 1) as int).push(v@[i - 1]));
    }
    assert(v@.take(v.len() as int) == v@);
    s
}

/// Appends the characters of `t` to `out`.
pub fn push_all(out: &mut Vec<char>, t: &Vec<char>)
    ensures
        final(out)@ == old(out)@ + t@,
{
    let mut i: usize = 0;
    while i < t.len()
        invariant
            i <= t.len(),
            out@ == old(out)@ + t@.take(i as int),
        decreases t.len() - i,
    {
        out.push(t[i]);
        i += 1;
        assert(t@.take(i as int) == t@.take((i - 1) as int).push(t@[i - 1]));
    }
    assert(t@.take(t.len() as int) == t@);
}

/// Appends the characters of the literal `t` to `out`.
pub fn push_str(out: &mut Vec<char>, t: &str)
    ensures
        final(out)@ == old(out)@ + t@,
{
    let tv = chars_of(t);
    push_all(out, &tv);
}

/// Whether `a` and `b` hold the same characters.
pub fn same_chars(a: &Vec<char>, b: &Vec<char>) -> (r: bool)
    ensures
        r == (a@ == b@),
{
    if a.len() != b.len() {
        return false;
    }
    let mut i: usize = 0;
    while i < a.len()
        invariant
            i <= a.len(),
            a.len() == b.len(),
            forall|k: int| 0 <= k < i ==> a@[k] == b@[k],
        decreases a.len() - i,
    {
        if a[i] != b[i] {
            return false;
        }
        i += 1;
    }
    assert(a@ =~= b@);
    true
}

/// Whether `p` occurs in `t` at position `at`.
pub fn has_at(t: &Vec<char>, at: usize, p: &Vec<char>) -> (r: bool)
    requires
        at <= t.len(),
    ensures
        r == (at + p.len() <= t.len() && t@.subrange(at as int, at + p.len()) == p@),
{
    if p.len() > t.len() - at {
        return false;
    }
    let mut i: usize = 0;
    while i < p.len()
        invariant
            i <= p.len(),
            at + p.len() <= t.len(),
            forall|k: int| 0 <= k < i ==> t@[at + k] == p@[k],
        decreases p.len() - i,
    {
        if t[at + i] != p[i] {
            assert(t@.subrange(at as int, at + p.len())[i as int] != p@[i as int]);
            return false;
        }
        i += 1;
    }
    assert(t@.subrange(at as int, at + p.len()) =~= p@);
    true
}

/// `t[from..to]` as a new vector.
pub fn slice_of(t: &Vec<char>, from: usize, to: usize) -> (r: Vec<char>)
    requires
        from <= to <= t.len(),
    ensures
        r@ == t@.subrange(from as int, to as int),
{
    let mut r: Vec<char> = Vec::new();
    let mut i = from;
    while i < to
        invariant
            from <= i <= to <= t.len(),
            r@ == t@.subrange(from as int, i as int),
        decreases to - i,
    {
        r.push(t[i]);
        i += 1;
        assert(t@.subrange(from as int, i as int) =~= t@.subrange(from as int, i - 1).push(
            t@[i - 1],
        ));
    }
    r
}

/// Splits `s` into its lines, each with its terminator.
pub fn split_lines(s: &Vec<char>) -> (ls: Vec<Vec<char>>)
    ensures
        ls@.len() == lines_of(s@).len(),
        forall|k: int| 0 <= k < ls@.len() ==> #[trigger] ls@[k]@ == lines_of(s@)[k],
{
    let mut ls: Vec<Vec<char>> = Vec::new();
    let mut start: usize = 0;
    let mut i: usize = 0;
    let ghost done: Seq<Seq<char>> = seq![];
    while i < s.len()
        invariant
            start <= i <= s.len(),
            ls@.len() == done.len(),
            forall|k: int| 0 <= k < ls@.len() ==> #[trigger] ls@[k]@ == done[k],
            done + lines_from(s@, start as int) == lines_of(s@),
            forall|k: int| start <= k < i ==> s@[k] != '\n',
        decreases s.len() - i,
    {
        if s[i] == '\n' {
            proof {
                lemma_line_end_skip(s@, start as int, i as int);
                assert(line_end(s@, start as int) == i + 1);
                assert(lines_from(s@, start as int) == seq![s@.subrange(start as int, i + 1)]
                    + lines_from(s@, i + 1));
            }
            let line = slice_of(s, start, i + 1);
            ls.push(line);
            proof {
                assert(done.push(line@) + lines_from(s@, i + 1) =~= done + lines_from(
                    s@,
                    start as int,
                ));
                done = done.push(line@);
            }
            start = i + 1;
        }
        i += 1;
    }
    if start < s.len() {
        proof {
            lemma_line_end_skip(s@, start as int, s.len() as int);
            assert(line_end(s@, start as int) == s.len());
            assert(lines_from(s@, s.len() as int) =~= Seq::<Seq<char>>::empty());
            assert(lines_from(s@, start as int) =~= seq![s@.subrange(start as int, s.len() as int)]);
        }
        let line = slice_of(s, start, s.len());
        ls.push(line);
        proof {
            assert(done.push(line@) =~= done + lines_from(s@, start as int));
            done = done.push(line@);
        }
    } else {
        proof {
            assert(done =~= done + lines_from(s@, start as int));
        }
    }
    ls
}

/// The decimal digit for `d < 10`.
pub open spec fn digit(d: nat) -> char {
    ((d % 10) + 48) as char
}

/// `n` in decimal.
pub open spec fn decimal(n: nat) -> Seq<char>
    decreases n,
{
    if n < 10 {
        seq![digit(n)]
    } else {
        decimal(n / 10).push(digit(n % 10))
    }
}

/// `n` in decimal.
pub fn decimal_exec(n: usize) -> (r: Vec<char>)
    ensures
        r@ == decimal(n as nat),
    decreases n,
{
    let d = (n % 10) as u8;
    let c = (d + 48) as char;
    assert(c == digit(n as nat));
    if n < 10 {
        let mut r: Vec<char> = Vec::new();
        r.push(c);
        assert(r@ =~= seq![c]);
        r
    } else {
        let mut r = decimal_exec(n / 10);
        r.push(c);
        r
    }
}


/// Every piece of `ls` but the last ends with a newline.
pub open spec fn closed_but_last(ls: Seq<Seq<char>>) -> bool {
    forall|k: int| 0 <= k < ls.len() - 1 ==> ends_in_newline(#[trigger] ls[k])
}

/// Where every piece but the last is terminated, a piece that is one line
/// is among the lines of the text the pieces make.
pub proof fn lemma_lines_of_contains(ls: Seq<Seq<char>>, p: int)
    requires
        closed_but_last(ls),
        0 <= p < ls.len(),
        is_line(ls[p]),
    ensures
        lines_of(concat(ls)).contains(ls[p]),
    decreases ls.len(),
{
    let front = ls.drop_last();
    let last = ls.last();
    if front.len() > 0 {
        assert(ends_in_newline(ls[front.len() - 1]));
        assert(front.last() == ls[front.len() - 1]);
        lemma_concat_last(front);
    }
    lemma_lines_of_append(concat(front), last);
    if p < front.len() {
        assert forall|k: int| 0 <= k < front.len() - 1 implies ends_in_newline(#[trigger] front[k]) by {
            assert(front[k] == ls[k]);
        }
        assert(front[p] == ls[p]);
        lemma_lines_of_contains(front, p);
        let k = choose|k: int| 0 <= k < lines_of(concat(front)).len() && lines_of(concat(front))[k] == ls[p];
        assert((lines_of(concat(front)) + lines_of(last))[k] == ls[p]);
    } else {
        lemma_lines_of_line(last);
        assert((lines_of(concat(front)) + lines_of(last))[lines_of(concat(front)).len() as int] == last);
    }
}


/// The text of two runs of pieces put together.
pub proof fn lemma_concat_add(a: Seq<Seq<char>>, b: Seq<Seq<char>>)
    ensures
        concat(a + b) == concat(a) + concat(b),
    decreases b.len(),
{
    if b.len() == 0 {
        assert(a + b =~= a);
        assert(concat(a) + concat(b) =~= concat(a));
    } else {
        lemma_concat_add(a, b.drop_last());
        assert((a + b).drop_last() =~= a + b.drop_last());
        assert((a + b).last() == b.last());
        assert(concat(a) + (concat(b.drop_last()) + b.last()) =~= concat(a) + concat(b.drop_last()) + b.last());
    }
}

/// The lines of the text of the first `p` pieces, where every piece but
/// the last is terminated, come first among the lines of the whole text;
/// the next line is piece `p`, when that piece is one line.
pub proof fn lemma_line_at(ls: Seq<Seq<char>>, p: int)
    requires
        closed_but_last(ls),
        0 <= p < ls.len(),
        is_line(ls[p]),
    ensures
        lines_of(concat(ls.take(p))).len() < lines_of(concat(ls)).len(),
        lines_of(concat(ls))[lines_of(concat(ls.take(p))).len() as int] == ls[p],
{
    let a = ls.take(p);
    let rest = ls.skip(p + 1);
    assert(ls =~= a + (seq![ls[p]] + rest));
    lemma_concat_add(a, seq![ls[p]] + rest);
    lemma_concat_prepend(ls[p], rest);
    if p > 0 {
        assert(ends_in_newline(ls[p - 1]));
        assert(a.last() == ls[p - 1]);
        lemma_concat_last(a);
    }
    lemma_lines_of_append(concat(a), ls[p] + concat(rest));
    lemma_lines_of_line(ls[p]);
    if ends_in_newline(ls[p]) {
        lemma_lines_of_append(ls[p], concat(rest));
    } else {
        assert(rest.len() == 0);
        assert(concat(rest) == Seq::<char>::empty());
        assert(ls[p] + concat(rest) =~= ls[p]);
    }
}

/// Lines of earlier pieces come before lines of later ones.
pub proof fn lemma_line_order(ls: Seq<Seq<char>>, p1: int, p2: int)
    requires
        closed_but_last(ls),
        0 <= p1 < p2 <= ls.len(),
        ls[p1].len() > 0,
    ensures
        lines_of(concat(ls.take(p1))).len() < lines_of(concat(ls.take(p2))).len(),
{
    let a = ls.take(p1);
    let mid = ls.subrange(p1, p2);
    assert(ls.take(p2) =~= a + mid);
    lemma_concat_add(a, mid);
    if p1 > 0 {
        assert(ends_in_newline(ls[p1 - 1]));
        assert(a.last() == ls[p1 - 1]);
        lemma_concat_last(a);
    }
    lemma_lines_of_append(concat(a), concat(mid));
    assert(mid =~= seq![ls[p1]] + mid.skip(1));
    lemma_concat_prepend(ls[p1], mid.skip(1));
    lemma_lines_from_run(concat(mid), 0);
}

} // verus!
