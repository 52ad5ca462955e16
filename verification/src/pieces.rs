//! Texts that are put together from pieces come apart into the same pieces.

use vstd::prelude::*;
use crate::gate::{lemma_find_at, lemma_find_none};
use crate::text::{
    find_from, is_space, lines, space_end, space_start, split, trimmed, without_return, word_end,
    words,
};

verus! {

/// Whether a text has no such character.
pub open spec fn is_without(s: Seq<char>, c: char) -> bool {
    forall|i: int| 0 <= i < s.len() ==> #[trigger] s[i] != c
}

/// Whether a text has no white space at its ends, and no comma and no line feed in it.
pub open spec fn is_bare(s: Seq<char>) -> bool {
    &&& is_without(s, ',')
    &&& is_without(s, '\n')
    &&& s.len() > 0 ==> !is_space(s[0]) && !is_space(s.last())
}

/// Texts with a comma between them.
pub open spec fn with_commas(ts: Seq<Seq<char>>) -> Seq<char>
    decreases ts.len(),
{
    if ts.len() == 0 {
        seq![]
    } else if ts.len() == 1 {
        ts[0]
    } else {
        ts[0] + seq![','] + with_commas(ts.skip(1))
    }
}

/// Texts with commas between them come apart at the commas.
pub proof fn lemma_commas_split(ts: Seq<Seq<char>>)
    requires
        ts.len() > 0,
        forall|i: int| 0 <= i < ts.len() ==> is_without(#[trigger] ts[i], ','),
    ensures
        split(with_commas(ts), ',') == ts,
    decreases ts.len(),
{
    let p = ts[0];
    assert(is_without(ts[0], ','));
    if ts.len() == 1 {
        lemma_find_none(p, ',', 0);
        assert(seq![p] =~= ts);
    } else {
        let r = ts.skip(1);
        assert forall|i: int| 0 <= i < r.len() implies is_without(#[trigger] r[i], ',') by {
            assert(r[i] == ts[i + 1]);
        }
        lemma_commas_split(r);
        let rest = with_commas(r);
        let s = p + seq![','] + rest;
        assert forall|k: int| 0 <= k < p.len() implies #[trigger] s[k] != ',' by {
            assert(s[k] == p[k]);
        }
        lemma_find_at(s, ',', 0, p.len() as int);
        assert(s.take(p.len() as int) =~= p);
        assert(s.skip(p.len() as int + 1) =~= rest);
        assert(seq![p] + r =~= ts);
    }
}

/// The ends of texts with commas between them, and what is not in them.
pub proof fn lemma_commas_ends(ts: Seq<Seq<char>>)
    requires
        ts.len() > 0,
        ts[0].len() > 0,
        ts.last().len() > 0,
        forall|i: int| 0 <= i < ts.len() ==> is_without(#[trigger] ts[i], '\n'),
    ensures
        with_commas(ts).len() > 0,
        with_commas(ts)[0] == ts[0][0],
        with_commas(ts).last() == ts.last().last(),
        is_without(with_commas(ts), '\n'),
    decreases ts.len(),
{
    assert(is_without(ts[0], '\n'));
    if ts.len() > 1 {
        let r = ts.skip(1);
        assert(r.last() == ts.last());
        assert forall|i: int| 0 <= i < r.len() implies is_without(#[trigger] r[i], '\n') by {
            assert(r[i] == ts[i + 1]);
        }
        lemma_commas_tail(r);
        let s = with_commas(ts);
        let rest = with_commas(r);
        assert forall|i: int| 0 <= i < s.len() implies #[trigger] s[i] != '\n' by {
            if i < ts[0].len() {
                assert(s[i] == ts[0][i]);
            } else if i > ts[0].len() {
                assert(s[i] == rest[i - ts[0].len() - 1]);
            }
        }
        assert(s[s.len() - 1] == rest[rest.len() - 1]);
    }
}

proof fn lemma_commas_tail(ts: Seq<Seq<char>>)
    requires
        ts.len() > 0,
        ts.last().len() > 0,
        forall|i: int| 0 <= i < ts.len() ==> is_without(#[trigger] ts[i], '\n'),
    ensures
        with_commas(ts).len() > 0,
        with_commas(ts).last() == ts.last().last(),
        is_without(with_commas(ts), '\n'),
    decreases ts.len(),
{
    assert(is_without(ts[0], '\n'));
    if ts.len() > 1 {
        let r = ts.skip(1);
        assert(r.last() == ts.last());
        assert forall|i: int| 0 <= i < r.len() implies is_without(#[trigger] r[i], '\n') by {
            assert(r[i] == ts[i + 1]);
        }
        lemma_commas_tail(r);
        let s = with_commas(ts);
        let rest = with_commas(r);
        assert forall|i: int| 0 <= i < s.len() implies #[trigger] s[i] != '\n' by {
            if i < ts[0].len() {
                assert(s[i] == ts[0][i]);
            } else if i > ts[0].len() {
                assert(s[i] == rest[i - ts[0].len() - 1]);
            }
        }
        assert(s[s.len() - 1] == rest[rest.len() - 1]);
    }
}

pub proof fn lemma_bare_trimmed(s: Seq<char>)
    requires
        s.len() > 0 ==> !is_space(s[0]) && !is_space(s.last()),
    ensures
        trimmed(s) == s,
        trimmed(seq![' '] + s) == s,
{
    if s.len() > 0 {
        assert(space_end(s, 0) == 0);
        assert(s[s.len() - 1] == s.last());
        assert(space_start(s, s.len() as int) == s.len());
        assert(s.subrange(0, s.len() as int) =~= s);
        let t = seq![' '] + s;
        assert(t[0] == ' ' && t[1] == s[0]);
        assert(is_space(' '));
        reveal_with_fuel(space_end, 3);
        assert(space_end(t, 0) == 1);
        assert(t[t.len() - 1] == s.last());
        assert(space_start(t, t.len() as int) == t.len());
        assert(t.subrange(1, t.len() as int) =~= s);
    } else {
        assert(trimmed(s) =~= s);
        let t = seq![' '] + s;
        assert(t[0] == ' ');
        assert(is_space(' '));
        reveal_with_fuel(space_end, 3);
        reveal_with_fuel(space_start, 3);
        assert(space_end(t, 0) == 1);
        assert(trimmed(t) =~= s);
    }
}

/// A line that is added to whole lines is one more line.
#[verifier::rlimit(40)]
pub proof fn lemma_lines_add(t: Seq<char>, l: Seq<char>)
    requires
        t.len() == 0 || t.last() == '\n',
        is_without(l, '\n'),
    ensures
        lines(t + l + seq!['\n']) == lines(t).push(without_return(l)),
    decreases t.len(),
{
    let s = t + l + seq!['\n'];
    if t.len() == 0 {
        assert forall|k: int| 0 <= k < l.len() implies #[trigger] s[k] != '\n' by {
            assert(s[k] == l[k]);
        }
        lemma_find_at(s, '\n', 0, l.len() as int);
        assert(s.take(l.len() as int) =~= l);
        let e = Seq::<char>::empty();
        assert(s.skip(l.len() as int + 1) =~= e);
        assert(lines(e) =~= seq![]);
        assert(lines(t) =~= seq![]);
        assert(lines(s) == seq![without_return(l)] + lines(e));
        assert(lines(s) =~= lines(t).push(without_return(l)));
    } else {
        crate::text::lemma_find(t, '\n', 0);
        lemma_first(t, '\n', 0);
        let i = find_from(t, '\n', 0);
        assert(t[t.len() - 1] == '\n');
        assert(i < t.len());
        assert forall|k: int| 0 <= k < i implies #[trigger] s[k] != '\n' by {
            assert(s[k] == t[k]);
        }
        lemma_find_at(s, '\n', 0, i);
        let u = t.skip(i + 1);
        assert(s.take(i) =~= t.take(i));
        assert(s.skip(i + 1) =~= u + l + seq!['\n']);
        if u.len() > 0 {
            assert(u.last() == t.last());
        }
        lemma_lines_add(u, l);
        assert(seq![without_return(t.take(i))] + lines(u).push(without_return(l)) =~= (seq![
            without_return(t.take(i)),
        ] + lines(u)).push(without_return(l)));
    }
}

proof fn lemma_first(s: Seq<char>, c: char, i: int)
    requires
        0 <= i <= s.len(),
    ensures
        forall|k: int| i <= k < find_from(s, c, i) ==> #[trigger] s[k] != c,
        find_from(s, c, i) == s.len() ==> forall|k: int| i <= k < s.len() ==> #[trigger] s[k] != c,
    decreases s.len() - i,
{
    if i < s.len() && s[i] != c {
        lemma_first(s, c, i + 1);
    }
}

proof fn lemma_word(s: Seq<char>, i: int, n: int)
    requires
        0 <= i <= n <= s.len(),
        forall|k: int| i <= k < n ==> !is_space(#[trigger] s[k]),
        n < s.len() ==> is_space(s[n]),
    ensures
        word_end(s, i) == n,
    decreases n - i,
{
    if i < n {
        lemma_word(s, i + 1, n);
    }
}

/// Whether a text is one word.
pub open spec fn is_word(s: Seq<char>) -> bool {
    s.len() > 0 && forall|i: int| 0 <= i < s.len() ==> !is_space(#[trigger] s[i])
}

proof fn lemma_word_here(s: Seq<char>, i: int, w: Seq<char>)
    requires
        0 <= i,
        is_word(w),
        i + w.len() <= s.len(),
        s.subrange(i, i + w.len()) == w,
        i + w.len() < s.len() ==> is_space(s[i + w.len()]),
    ensures
        words(s, i) == seq![w] + words(s, i + w.len()),
{
    let n = i + w.len();
    assert forall|k: int| i <= k < n implies !is_space(#[trigger] s[k]) by {
        assert(s[k] == w[k - i]);
    }
    assert(!is_space(s[i]));
    assert(space_end(s, i) == i);
    lemma_word(s, i, n);
}

proof fn lemma_word_after(s: Seq<char>, i: int)
    requires
        0 <= i < s.len() - 1,
        s[i] == ' ',
        !is_space(s[i + 1]),
    ensures
        words(s, i) == words(s, i + 1),
{
    assert(is_space(' '));
    reveal_with_fuel(space_end, 3);
    assert(space_end(s, i) == i + 1);
    assert(space_end(s, i + 1) == i + 1);
}

/// The first word of a line.
pub proof fn lemma_first_word(w: Seq<char>, rest: Seq<char>)
    requires
        is_word(w),
        rest.len() > 0 ==> is_space(rest[0]),
    ensures
        words(w + rest, 0).len() > 0,
        words(w + rest, 0)[0] == w,
{
    let s = w + rest;
    assert(s.subrange(0, w.len() as int) =~= w);
    lemma_word_here(s, 0, w);
}

/// The first three words of a line, with a space between them.
pub proof fn lemma_three_words(a: Seq<char>, b: Seq<char>, c: Seq<char>, rest: Seq<char>)
    requires
        is_word(a),
        is_word(b),
        is_word(c),
        rest.len() > 0 ==> is_space(rest[0]),
    ensures
        words(a + seq![' '] + b + seq![' '] + c + rest, 0).len() > 2,
        words(a + seq![' '] + b + seq![' '] + c + rest, 0)[1] == b,
        words(a + seq![' '] + b + seq![' '] + c + rest, 0)[2] == c,
{
    let s = a + seq![' '] + b + seq![' '] + c + rest;
    let i = a.len() as int;
    let j = i + 1 + b.len();
    let k = j + 1 + c.len();
    assert(is_space(' '));
    assert(s[i] == ' ' && s[j] == ' ');
    assert(s.subrange(0, i) =~= a);
    assert(s.subrange(i + 1, j) =~= b);
    assert(s.subrange(j + 1, k) =~= c);
    if k < s.len() {
        assert(s[k] == rest[0]);
    }
    lemma_word_here(s, 0, a);
    assert(s[i + 1] == b[0]);
    lemma_word_after(s, i);
    lemma_word_here(s, i + 1, b);
    assert(s[j + 1] == c[0]);
    lemma_word_after(s, j);
    lemma_word_here(s, j + 1, c);
}

} // verus!
