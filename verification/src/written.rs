//! What is written as JSON reads back: of any value, and of a value's text wherever it stands in
//! another.

use vstd::prelude::*;
use crate::decimal::{lemma_display_round_trip, parsed};
use crate::double::{nearest, product, quotient, whole, Double};
use crate::json::{
    array_text, bool_text, char_at, elements, entry, is_number_char, lemma_integer_text,
    lemma_listed_push, lemma_string_stands, listed, members, num_text, number_at, number_end,
    object_text, parsed_json, plain_integer, quoted, skip_space, stands_at, string_at,
    unsigned_zero, value_at, word_at, Json,
};
use crate::table::put;
use crate::text::{is_digit, is_space};

verus! {

// ---------------------------------------------------------------- values and their texts

/// The text that a value is written as.
pub open spec fn json_text(j: Json) -> Seq<char>
    decreases j, 0int,
{
    match j {
        Json::Null => "null"@,
        Json::Bool(b) => bool_text(b),
        Json::Num(n) => num_text(n),
        Json::Str(s) => quoted(s),
        Json::Arr(a) => array_text(element_texts(a, a.len() as int)),
        Json::Obj(m) => object_text(member_texts(m, m.len() as int)),
    }
}

/// The texts of the first `k` elements of an array.
pub open spec fn element_texts(a: Seq<Json>, k: int) -> Seq<Seq<char>>
    decreases a, k,
{
    if k <= 0 || k > a.len() {
        seq![]
    } else {
        element_texts(a, k - 1).push(json_text(a[k - 1]))
    }
}

/// The texts of the first `k` members of an object.
pub open spec fn member_texts(m: Seq<(Seq<char>, Json)>, k: int) -> Seq<Seq<char>>
    decreases m, k,
{
    if k <= 0 || k > m.len() {
        seq![]
    } else {
        member_texts(m, k - 1).push(entry(m[k - 1].0, json_text(m[k - 1].1)))
    }
}

/// A number rounded to three places, as it is written where it is no integer.
pub open spec fn three_places(n: Double) -> Double {
    quotient(nearest(product(n, whole(1000))), whole(1000))
}

/// What a number reads back as. What is not finite is written as `null`.
pub open spec fn num_back(n: Double) -> Json {
    if !n.finite() {
        Json::Null
    } else if plain_integer(n) {
        Json::Num(unsigned_zero(n))
    } else {
        Json::Num(three_places(n))
    }
}

/// What a value reads back as: numbers as they were rounded, and of equal keys the last.
pub open spec fn read_back(j: Json) -> Json
    decreases j, 0int,
{
    match j {
        Json::Num(n) => num_back(n),
        Json::Arr(a) => Json::Arr(elements_back(a, a.len() as int)),
        Json::Obj(m) => Json::Obj(members_back(m, m.len() as int)),
        _ => j,
    }
}

/// What the first `k` elements of an array read back as.
pub open spec fn elements_back(a: Seq<Json>, k: int) -> Seq<Json>
    decreases a, k,
{
    if k <= 0 || k > a.len() {
        seq![]
    } else {
        elements_back(a, k - 1).push(read_back(a[k - 1]))
    }
}

/// What the first `k` members of an object read back as.
pub open spec fn members_back(m: Seq<(Seq<char>, Json)>, k: int) -> Seq<(Seq<char>, Json)>
    decreases m, k,
{
    if k <= 0 || k > m.len() {
        seq![]
    } else {
        put(members_back(m, k - 1), m[k - 1].0, read_back(m[k - 1].1))
    }
}

/// Whether a number can be written. One so large that a thousand times it is not finite cannot.
pub open spec fn is_writable_num(n: Double) -> bool {
    n.finite() && !plain_integer(n) ==> three_places(n).finite()
}

/// Whether all numbers in a value can be written.
pub open spec fn is_writable(j: Json) -> bool
    decreases j,
{
    match j {
        Json::Num(n) => is_writable_num(n),
        Json::Arr(a) => forall|i: int| 0 <= i < a.len() ==> is_writable(#[trigger] a[i]),
        Json::Obj(m) => forall|i: int| 0 <= i < m.len() ==> is_writable((#[trigger] m[i]).1),
        _ => true,
    }
}

proof fn lemma_element_texts(a: Seq<Json>, k: int)
    requires
        0 <= k <= a.len(),
    ensures
        element_texts(a, k).len() == k,
        forall|i: int| 0 <= i < k ==> #[trigger] element_texts(a, k)[i] == json_text(a[i]),
    decreases k,
{
    if k > 0 {
        lemma_element_texts(a, k - 1);
    }
}

proof fn lemma_member_texts(m: Seq<(Seq<char>, Json)>, k: int)
    requires
        0 <= k <= m.len(),
    ensures
        member_texts(m, k).len() == k,
        forall|i: int|
            0 <= i < k ==> #[trigger] member_texts(m, k)[i] == entry(m[i].0, json_text(m[i].1)),
    decreases k,
{
    if k > 0 {
        lemma_member_texts(m, k - 1);
    }
}

/// The text of an array, by its elements.
pub proof fn lemma_array_text(a: Seq<Json>, ts: Seq<Seq<char>>)
    requires
        ts.len() == a.len(),
        forall|i: int| 0 <= i < a.len() ==> #[trigger] ts[i] == json_text(a[i]),
    ensures
        json_text(Json::Arr(a)) == array_text(ts),
{
    lemma_element_texts(a, a.len() as int);
    assert(element_texts(a, a.len() as int) =~= ts);
}

/// The text of an object, by its members.
pub proof fn lemma_object_text(m: Seq<(Seq<char>, Json)>, ts: Seq<Seq<char>>)
    requires
        ts.len() == m.len(),
        forall|i: int| 0 <= i < m.len() ==> #[trigger] ts[i] == entry(m[i].0, json_text(m[i].1)),
    ensures
        json_text(Json::Obj(m)) == object_text(ts),
{
    lemma_member_texts(m, m.len() as int);
    assert(member_texts(m, m.len() as int) =~= ts);
}

// ---------------------------------------------------------------- where texts stand

/// Whether a value can end at `e`: at the end of the text, or before what follows a value.
spec fn can_end(b: Seq<char>, e: int) -> bool {
    e == b.len() || (0 <= e < b.len() && (b[e] == ',' || b[e] == ']' || b[e] == '}'))
}

/// How far into a list the text `k` starts.
spec fn offset(ts: Seq<Seq<char>>, k: int) -> int {
    if k <= 0 {
        0
    } else {
        listed(ts.take(k)).len() + 1int
    }
}

proof fn lemma_offset(ts: Seq<Seq<char>>, k: int)
    requires
        0 <= k < ts.len(),
    ensures
        listed(ts.take(k + 1)).len() == offset(ts, k) + ts[k].len(),
        listed(ts.take(k + 1)).subrange(offset(ts, k), offset(ts, k) + ts[k].len()) == ts[k],
        k > 0 ==> listed(ts.take(k + 1)).take(listed(ts.take(k)).len() as int) == listed(ts.take(k))
            && listed(ts.take(k + 1))[listed(ts.take(k)).len() as int] == ',',
{
    let f = ts.take(k);
    assert(ts.take(k + 1) =~= f.push(ts[k]));
    lemma_listed_push(f, ts[k]);
    let l = listed(ts.take(k + 1));
    if k == 0 {
        assert(l.subrange(0, ts[k].len() as int) =~= ts[k]);
    } else {
        let n = listed(f).len() as int;
        assert(l.subrange(n + 1, n + 1 + ts[k].len()) =~= ts[k]);
        assert(l.take(n) =~= listed(f));
    }
}

/// The front of a list is the list of the front.
proof fn lemma_listed_take(ts: Seq<Seq<char>>, k: int)
    requires
        0 < k <= ts.len(),
    ensures
        listed(ts.take(k)).len() <= listed(ts).len(),
        listed(ts).take(listed(ts.take(k)).len() as int) == listed(ts.take(k)),
        k < ts.len() ==> listed(ts.take(k)).len() < listed(ts).len() && listed(ts)[listed(
            ts.take(k),
        ).len() as int] == ',',
    decreases ts.len() - k,
{
    let l = listed(ts);
    let f = listed(ts.take(k));
    if k == ts.len() {
        assert(ts.take(k) =~= ts);
        assert(l.take(l.len() as int) =~= l);
    } else {
        lemma_listed_take(ts, k + 1);
        lemma_offset(ts, k);
        let g = listed(ts.take(k + 1));
        assert(l.take(g.len() as int) == g);
        assert(l.take(f.len() as int) =~= g.take(f.len() as int));
        assert(l[f.len() as int] == l.take(g.len() as int)[f.len() as int]);
    }
}

/// Where the texts of a list stand, and what stands behind them.
proof fn lemma_listed_stands(b: Seq<char>, p: int, ts: Seq<Seq<char>>, k: int)
    requires
        stands_at(b, p, listed(ts)),
        0 <= k < ts.len(),
    ensures
        stands_at(b, p + offset(ts, k), ts[k]),
        k + 1 < ts.len() ==> p + offset(ts, k) + ts[k].len() < b.len() && b[p + offset(ts, k)
            + ts[k].len()] == ',' && offset(ts, k + 1) == offset(ts, k) + ts[k].len() + 1,
        k + 1 == ts.len() ==> offset(ts, k) + ts[k].len() == listed(ts).len(),
{
    let l = listed(ts);
    let w = b.subrange(p, p + l.len());
    let g = listed(ts.take(k + 1));
    lemma_offset(ts, k);
    lemma_listed_take(ts, k + 1);
    let o = offset(ts, k);
    let n = ts[k].len() as int;
    assert(g == l.take(g.len() as int));
    assert(b.subrange(p + o, p + o + n) =~= w.subrange(o, o + n));
    assert(l.subrange(o, o + n) =~= g.subrange(o, o + n));
    if k + 1 < ts.len() {
        assert(b[p + g.len()] == w[g.len() as int]);
    } else {
        assert(ts.take(k + 1) =~= ts);
    }
}

// ---------------------------------------------------------------- reading

proof fn lemma_no_space(b: Seq<char>, i: int)
    requires
        0 <= i < b.len() ==> !is_space(b[i]),
    ensures
        skip_space(b, i) == i,
{
}

proof fn lemma_word_stands(b: Seq<char>, i: int, w: Seq<char>, k: int, v: Json)
    requires
        stands_at(b, i, w),
        0 <= k <= w.len(),
    ensures
        word_at(b, i, w, k, v) == Ok::<(Json, int), Seq<char>>((v, i + w.len())),
    decreases w.len() - k,
{
    if k < w.len() {
        assert(b[i + k] == b.subrange(i, i + w.len())[k]);
        lemma_word_stands(b, i, w, k + 1, v);
    }
}

proof fn lemma_number_stands(b: Seq<char>, i: int, n: int)
    requires
        0 <= i <= n <= b.len(),
        forall|k: int| i <= k < n ==> is_number_char(#[trigger] b[k]),
        n < b.len() ==> !is_number_char(b[n]),
    ensures
        number_end(b, i) == n,
    decreases n - i,
{
    if i < n {
        lemma_number_stands(b, i + 1, n);
    }
}

/// The text of a finite number gives what the number reads back as.
proof fn lemma_num_text(n: Double)
    requires
        n.finite(),
        is_writable_num(n),
    ensures
        num_back(n) is Num,
        parsed(num_text(n)) == Some(num_back(n)->Num_0),
        num_text(n).len() > 0,
        is_digit(num_text(n)[0]) || num_text(n)[0] == '-',
        forall|i: int| 0 <= i < num_text(n).len() ==> is_number_char(#[trigger] num_text(n)[i]),
{
    if plain_integer(n) {
        lemma_integer_text(n);
    } else {
        lemma_display_round_trip(three_places(n));
    }
}

proof fn lemma_number_at(b: Seq<char>, i: int, t: Seq<char>, x: Double)
    requires
        t.len() > 0,
        parsed(t) == Some(x),
        forall|k: int| 0 <= k < t.len() ==> is_number_char(#[trigger] t[k]),
        stands_at(b, i, t),
        can_end(b, i + t.len()),
    ensures
        number_at(b, i) == Ok::<(Json, int), Seq<char>>((Json::Num(x), i + t.len())),
{
    let e = i + t.len();
    let w = b.subrange(i, e);
    assert forall|k: int| i <= k < e implies is_number_char(#[trigger] b[k]) by {
        assert(b[k] == w[k - i]);
        assert(is_number_char(t[k - i]));
    }
    lemma_number_stands(b, i, e);
}

proof fn lemma_number_reads(b: Seq<char>, i: int, n: Double)
    requires
        n.finite(),
        is_writable_num(n),
        stands_at(b, i, num_text(n)),
        can_end(b, i + num_text(n).len()),
    ensures
        value_at(b, i) == Ok::<(Json, int), Seq<char>>((num_back(n), i + num_text(n).len())),
{
    let t = num_text(n);
    lemma_num_text(n);
    lemma_number_at(b, i, t, num_back(n)->Num_0);
    assert(b[i] == b.subrange(i, i + t.len())[0]);
    assert(char_at(b, i) == Some(t[0]));
}

/// A value's text starts with no white space, and with nothing that closes an array or object.
proof fn lemma_first(j: Json)
    requires
        is_writable(j),
    ensures
        json_text(j).len() > 0,
        !is_space(json_text(j)[0]),
        json_text(j)[0] != ']',
        json_text(j)[0] != '}',
{
    reveal_strlit("null");
    reveal_strlit("true");
    reveal_strlit("false");
    match j {
        Json::Num(n) => {
            if n.finite() {
                lemma_num_text(n);
            }
        },
        _ => {},
    }
}

/// A text starts where it stands.
proof fn lemma_head(b: Seq<char>, i: int, t: Seq<char>)
    requires
        stands_at(b, i, t),
        t.len() > 0,
    ensures
        i < b.len(),
        b[i] == t[0],
{
    assert(b[i] == b.subrange(i, i + t.len())[0]);
}

/// What stands between two brackets.
proof fn lemma_inside(b: Seq<char>, i: int, open: char, l: Seq<char>, close: char)
    requires
        stands_at(b, i, seq![open] + l + seq![close]),
    ensures
        b[i] == open,
        stands_at(b, i + 1, l),
        i + 1 + l.len() < b.len(),
        b[i + 1 + l.len()] == close,
{
    let t = seq![open] + l + seq![close];
    let w = b.subrange(i, i + t.len());
    assert(b[i] == w[0]);
    assert(b[i + 1 + l.len()] == w[1int + l.len()]);
    assert(b.subrange(i + 1, i + 1 + l.len()) =~= w.subrange(1, 1int + l.len()));
    assert(t.subrange(1, 1int + l.len()) =~= l);
}

/// The parts of a member.
proof fn lemma_member_parts(b: Seq<char>, s: int, k: Seq<char>, x: Seq<char>)
    requires
        stands_at(b, s, entry(k, x)),
    ensures
        string_at(b, s) == Ok::<(Seq<char>, int), Seq<char>>((k, s + quoted(k).len())),
        b[s] == '"',
        b[s + quoted(k).len()] == ':',
        stands_at(b, s + quoted(k).len() + 1, x),
        entry(k, x).len() == quoted(k).len() + 1 + x.len(),
{
    let t = entry(k, x);
    let q = quoted(k);
    let u = b.subrange(s, s + t.len());
    let n = q.len() as int;
    assert(t =~= q + seq![':'] + x);
    assert(b.subrange(s, s + n) =~= u.take(n));
    assert(t.take(n) =~= q);
    lemma_string_stands(b, s, k);
    assert(b[s + n] == u[n]);
    assert(b.subrange(s + n + 1, s + n + 1 + x.len()) =~= u.skip(n + 1));
    assert(t.skip(n + 1) =~= x);
}

/// The text of a value reads as the value, wherever it stands.
proof fn lemma_value_reads(b: Seq<char>, i: int, j: Json)
    requires
        is_writable(j),
        stands_at(b, i, json_text(j)),
        can_end(b, i + json_text(j).len()),
    ensures
        value_at(b, i) == Ok::<(Json, int), Seq<char>>((read_back(j), i + json_text(j).len())),
    decreases j, 0int, 0int,
{
    match j {
        Json::Arr(a) => {
            lemma_array_reads(b, i, a);
        },
        Json::Obj(m) => {
            lemma_object_reads(b, i, m);
        },
        _ => {
            lemma_scalar_reads(b, i, j);
        },
    }
}

proof fn lemma_scalar_reads(b: Seq<char>, i: int, j: Json)
    requires
        is_writable(j),
        !(j is Arr),
        !(j is Obj),
        stands_at(b, i, json_text(j)),
        can_end(b, i + json_text(j).len()),
    ensures
        value_at(b, i) == Ok::<(Json, int), Seq<char>>((read_back(j), i + json_text(j).len())),
{
    lemma_first(j);
    lemma_head(b, i, json_text(j));
    reveal_strlit("null");
    reveal_strlit("true");
    reveal_strlit("false");
    match j {
        Json::Null => {
            lemma_word_stands(b, i, "null"@, 0, Json::Null);
        },
        Json::Bool(v) => {
            lemma_word_stands(b, i, bool_text(v), 0, Json::Bool(v));
        },
        Json::Num(n) => {
            if n.finite() {
                lemma_number_reads(b, i, n);
            } else {
                lemma_word_stands(b, i, "null"@, 0, Json::Null);
            }
        },
        Json::Str(s) => {
            lemma_string_stands(b, i, s);
        },
        _ => {},
    }
}

proof fn lemma_array_reads(b: Seq<char>, i: int, a: Seq<Json>)
    requires
        is_writable(Json::Arr(a)),
        stands_at(b, i, json_text(Json::Arr(a))),
    ensures
        value_at(b, i) == Ok::<(Json, int), Seq<char>>(
            (read_back(Json::Arr(a)), i + json_text(Json::Arr(a)).len()),
        ),
    decreases a, a.len() + 1, 0int,
{
    let n = a.len() as int;
    let ts = element_texts(a, n);
    lemma_element_texts(a, n);
    lemma_inside(b, i, '[', listed(ts), ']');
    if n == 0 {
        lemma_no_space(b, i + 1);
    } else {
        assert(is_writable(a[0]));
        lemma_listed_stands(b, i + 1, ts, 0);
        lemma_first(a[0]);
        lemma_head(b, i + 1, ts[0]);
        lemma_no_space(b, i + 1);
        lemma_elements_read(b, i, a, 0);
    }
}

/// The elements of an array that stands at `i` read one after another, from `k` on.
proof fn lemma_elements_read(b: Seq<char>, i: int, a: Seq<Json>, k: int)
    requires
        is_writable(Json::Arr(a)),
        stands_at(b, i, json_text(Json::Arr(a))),
        0 <= k < a.len(),
    ensures
        elements(b, i + 1 + offset(element_texts(a, a.len() as int), k), elements_back(a, k)) == Ok::<
            (Json, int),
            Seq<char>,
        >((read_back(Json::Arr(a)), i + json_text(Json::Arr(a)).len())),
    decreases a, a.len() - k, 0int,
{
    let n = a.len() as int;
    let ts = element_texts(a, n);
    lemma_element_texts(a, n);
    lemma_inside(b, i, '[', listed(ts), ']');
    let s = i + 1 + offset(ts, k);
    let e = s + ts[k].len();
    lemma_listed_stands(b, i + 1, ts, k);
    assert(is_writable(a[k]));
    lemma_first(a[k]);
    lemma_head(b, s, ts[k]);
    lemma_no_space(b, s);
    lemma_no_space(b, e);
    lemma_value_reads(b, s, a[k]);
    assert(elements_back(a, k + 1) == elements_back(a, k).push(read_back(a[k])));
    if k + 1 < n {
        lemma_elements_read(b, i, a, k + 1);
    }
}

proof fn lemma_object_reads(b: Seq<char>, i: int, m: Seq<(Seq<char>, Json)>)
    requires
        is_writable(Json::Obj(m)),
        stands_at(b, i, json_text(Json::Obj(m))),
    ensures
        value_at(b, i) == Ok::<(Json, int), Seq<char>>(
            (read_back(Json::Obj(m)), i + json_text(Json::Obj(m)).len()),
        ),
    decreases m, m.len() + 1, 0int,
{
    let n = m.len() as int;
    let ts = member_texts(m, n);
    lemma_member_texts(m, n);
    lemma_inside(b, i, '{', listed(ts), '}');
    if n == 0 {
        lemma_no_space(b, i + 1);
    } else {
        lemma_listed_stands(b, i + 1, ts, 0);
        lemma_member_parts(b, i + 1, m[0].0, json_text(m[0].1));
        lemma_no_space(b, i + 1);
        lemma_members_read(b, i, m, 0);
    }
}

/// The members of an object that stands at `i` read one after another, from `k` on.
proof fn lemma_members_read(b: Seq<char>, i: int, m: Seq<(Seq<char>, Json)>, k: int)
    requires
        is_writable(Json::Obj(m)),
        stands_at(b, i, json_text(Json::Obj(m))),
        0 <= k < m.len(),
    ensures
        members(b, i + 1 + offset(member_texts(m, m.len() as int), k), members_back(m, k)) == Ok::<
            (Json, int),
            Seq<char>,
        >((read_back(Json::Obj(m)), i + json_text(Json::Obj(m)).len())),
    decreases m, m.len() - k, 0int,
{
    let n = m.len() as int;
    let ts = member_texts(m, n);
    lemma_member_texts(m, n);
    lemma_inside(b, i, '{', listed(ts), '}');
    let s = i + 1 + offset(ts, k);
    let e = s + ts[k].len();
    let x = json_text(m[k].1);
    lemma_listed_stands(b, i + 1, ts, k);
    lemma_member_parts(b, s, m[k].0, x);
    let c = s + quoted(m[k].0).len();
    lemma_no_space(b, s);
    lemma_no_space(b, c);
    assert(is_writable(m[k].1));
    lemma_first(m[k].1);
    lemma_head(b, c + 1, x);
    lemma_no_space(b, c + 1);
    lemma_no_space(b, e);
    lemma_value_reads(b, c + 1, m[k].1);
    assert(put(members_back(m, k), m[k].0, read_back(m[k].1)) == members_back(m, k + 1));
    if k + 1 < n {
        lemma_members_read(b, i, m, k + 1);
    }
}

/// A value that was written reads back: its numbers as they were rounded, what is not finite as
/// `null`, and of equal keys in an object the last.
pub proof fn lemma_json_round_trip(j: Json)
    requires
        is_writable(j),
    ensures
        parsed_json(json_text(j)) == Ok::<Json, Seq<char>>(read_back(j)),
{
    let b = json_text(j);
    lemma_first(j);
    lemma_no_space(b, 0);
    assert(b.subrange(0, b.len() as int) =~= b);
    lemma_value_reads(b, 0, j);
    lemma_no_space(b, b.len() as int);
}

} // verus!
