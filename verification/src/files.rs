//! What the names of files and servers say, and in what order they come.

use vstd::prelude::*;
use crate::db::{
    after_dash, dated, day_in, day_start, earliest_ts, file_name, files_before, is_day, oldest_day,
    row_at, REC,
};
use crate::decimal::{
    all_digits, lemma_number_bound, lemma_number_join, lemma_numeral_number, number, ten,
};
use crate::model::{digits_in, listed_before, name_number};
use crate::power::{is_day_text, lemma_day_number_order, lemma_day_text_reads, LAST_DAY};
use crate::table::{lemma_before_total, lemma_before_transitive};
use crate::text::{before, digit_value, is_digit, numeral};

verus! {

broadcast use vstd::string::group_string_axioms;

// ---------------------------------------------------------------- numbers in order

proof fn lemma_lead(a: Seq<char>)
    requires
        a.len() > 0,
    ensures
        number(a) == digit_value(a[0]) * ten((a.len() - 1) as nat) + number(a.skip(1)),
{
    let h = seq![a[0]];
    let r = a.skip(1);
    assert(h + r =~= a);
    lemma_number_join(h, r);
    assert(h.drop_last() =~= Seq::<char>::empty());
    assert(number(Seq::<char>::empty()) == 0);
    assert(number(h) == digit_value(a[0]));
}

/// Texts of as many digits come in the order of their numbers.
#[verifier::rlimit(40)]
pub proof fn lemma_digits_order(a: Seq<char>, b: Seq<char>)
    requires
        a.len() == b.len(),
        all_digits(a),
        all_digits(b),
    ensures
        before(a, b) <==> number(a) < number(b),
    decreases a.len(),
{
    if a.len() > 0 {
        let x = a.skip(1);
        let y = b.skip(1);
        assert forall|i: int| 0 <= i < x.len() implies is_digit(#[trigger] x[i]) by {
            assert(x[i] == a[i + 1]);
        }
        assert forall|i: int| 0 <= i < y.len() implies is_digit(#[trigger] y[i]) by {
            assert(y[i] == b[i + 1]);
        }
        lemma_digits_order(x, y);
        lemma_lead(a);
        lemma_lead(b);
        lemma_number_bound(x);
        lemma_number_bound(y);
        assert(is_digit(a[0]) && is_digit(b[0]));
        let t = ten(x.len()) as int;
        let c = digit_value(a[0]) as int;
        let d = digit_value(b[0]) as int;
        let n = number(x) as int;
        let m = number(y) as int;
        if c < d {
            assert(c * t + n < d * t + m) by (nonlinear_arith)
                requires
                    c < d,
                    0 <= n < t,
                    0 <= m < t,
            ;
        } else if d < c {
            assert(d * t + m < c * t + n) by (nonlinear_arith)
                requires
                    d < c,
                    0 <= n < t,
                    0 <= m < t,
            ;
        } else {
            assert(a[0] == b[0]);
        }
    }
}

proof fn lemma_eight(t: Seq<char>)
    requires
        t.len() == 8,
    ensures
        number(t) == number(t.subrange(0, 4)) * 10_000 + number(t.subrange(4, 6)) * 100 + number(
            t.subrange(6, 8),
        ),
{
    let a = t.subrange(0, 4);
    let b = t.subrange(4, 6);
    let c = t.subrange(6, 8);
    assert(t =~= (a + b) + c);
    lemma_number_join(a + b, c);
    lemma_number_join(a, b);
    assert(ten(2) == 100) by {
        reveal_with_fuel(ten, 3);
    }
    assert(number(a + b) == number(a) * 100 + number(b));
    assert(number(t) == number(a + b) * 100 + number(c));
}

/// The texts of days come in the order of the days.
pub proof fn lemma_days_order(s: Seq<char>, n: int, t: Seq<char>, m: int)
    requires
        is_day_text(s, n),
        is_day_text(t, m),
        0 <= n <= LAST_DAY,
        0 <= m <= LAST_DAY,
    ensures
        before(s, t) <==> n < m,
        s == t <==> n == m,
{
    lemma_day_text_reads(s, n);
    lemma_day_text_reads(t, m);
    lemma_digits_order(s, t);
    lemma_digits_order(t, s);
    lemma_eight(s);
    lemma_eight(t);
    let (y, o, d) = (
        number(s.subrange(0, 4)) as int,
        number(s.subrange(4, 6)) as int,
        number(s.subrange(6, 8)) as int,
    );
    let (x, p, e) = (
        number(t.subrange(0, 4)) as int,
        number(t.subrange(4, 6)) as int,
        number(t.subrange(6, 8)) as int,
    );
    if y < x || (y == x && (o < p || (o == p && d < e))) {
        lemma_day_number_order(y, o, d, x, p, e);
    } else if x < y || (y == x && (p < o || (o == p && e < d))) {
        lemma_day_number_order(x, p, e, y, o, d);
    }
    lemma_before_total(s, t);
}

// ---------------------------------------------------------------- names of files

proof fn lemma_after_dash(a: Seq<char>, b: Seq<char>, i: int)
    requires
        forall|k: int| 0 <= k < b.len() ==> #[trigger] b[k] != '-',
        a.len() + 1 <= i <= a.len() + 1 + b.len(),
    ensures
        after_dash(a + seq!['-'] + b, i) == b,
    decreases i,
{
    let s = a + seq!['-'] + b;
    if i == a.len() + 1 {
        assert(s[i - 1] == '-');
        assert(s.skip(i) =~= b);
    } else {
        assert(s[i - 1] == b[i - 1 - a.len() - 1]);
        lemma_after_dash(a, b, i - 1);
    }
}

/// The day is read from the name of a file as it was written there, whatever the server is
/// called; so files of different days have different names.
pub proof fn lemma_file_day(server: Seq<char>, day: Seq<char>)
    requires
        is_day(day),
    ensures
        day_in(file_name(server, day)) == Some(day),
        dated(file_name(server, day)) == Some(day),
{
    reveal_strlit(".bin");
    let b = day + ".bin"@;
    assert forall|k: int| 0 <= k < b.len() implies #[trigger] b[k] != '-' by {
        if k < 8 {
            assert(b[k] == day[k]);
            assert(is_digit(day[k]));
        } else {
            assert(b[k] == ".bin"@[k - 8]);
        }
    }
    assert(file_name(server, day) =~= server + seq!['-'] + b);
    lemma_after_dash(server, b, (server.len() + 1 + b.len()) as int);
    assert(b.skip(b.len() - 4) =~= ".bin"@);
    assert(b.take(b.len() - 4) =~= day);
}

/// Two servers, and two days, never share a file.
pub proof fn lemma_files_apart(a: Seq<char>, d: Seq<char>, b: Seq<char>, e: Seq<char>)
    requires
        is_day(d),
        is_day(e),
        file_name(a, d) == file_name(b, e),
    ensures
        a == b,
        d == e,
{
    lemma_file_day(a, d);
    lemma_file_day(b, e);
    let s = file_name(a, d);
    assert(a =~= s.take(s.len() - 13)) by {
        reveal_strlit(".bin");
    }
    assert(b =~= s.take(s.len() - 13)) by {
        reveal_strlit(".bin");
    }
}

/// A file of the store is pruned where its day is before the first day that is kept, and stays
/// where it is not.
pub proof fn lemma_pruned(
    names: Seq<String>,
    cutoff: Seq<char>,
    m: int,
    i: int,
    server: Seq<char>,
    day: Seq<char>,
    n: int,
)
    requires
        is_day_text(cutoff, m),
        0 <= m <= LAST_DAY,
        is_day_text(day, n),
        0 <= n <= LAST_DAY,
        0 <= i < names.len() <= usize::MAX,
        names[i]@ == file_name(server, day),
    ensures
        files_before(names, cutoff, names.len() as int).contains(i as usize) <==> n < m,
{
    lemma_listed_before(names, cutoff, names.len() as int);
    lemma_day_text_reads(day, n);
    lemma_file_day(server, day);
    lemma_days_order(day, n, cutoff, m);
    assert(files_before(names, cutoff, names.len() as int).contains(i as usize) <==> before(
        day,
        cutoff,
    ));
}

/// A file that is none of the store is not pruned, and each file is named once and in order.
pub proof fn lemma_pruned_once(names: Seq<String>, cutoff: Seq<char>, i: int)
    requires
        0 <= i < names.len() <= usize::MAX,
        day_in(names[i]@) is None,
    ensures
        ({
            let r = files_before(names, cutoff, names.len() as int);
            &&& !r.contains(i as usize)
            &&& forall|a: int, b: int| 0 <= a < b < r.len() ==> (#[trigger] r[a]) < (#[trigger] r[b])
        }),
{
    lemma_listed_before(names, cutoff, names.len() as int);
    assert(!files_before(names, cutoff, names.len() as int).contains(i as usize));
}

proof fn lemma_listed_before(names: Seq<String>, cutoff: Seq<char>, k: int)
    requires
        0 <= k <= names.len() <= usize::MAX,
    ensures
        ({
            let r = files_before(names, cutoff, k);
            &&& forall|i: int|
                0 <= i < k ==> (r.contains(#[trigger] (i as usize)) <==> (day_in(names[i]@) is Some
                    && before(day_in(names[i]@)->0, cutoff)))
            &&& forall|a: int| 0 <= a < r.len() ==> (#[trigger] r[a]) < k
            &&& forall|a: int, b: int| 0 <= a < b < r.len() ==> (#[trigger] r[a]) < (#[trigger] r[b])
        }),
    decreases k,
{
    let r = files_before(names, cutoff, k);
    if k > 0 {
        lemma_listed_before(names, cutoff, k - 1);
        let h = files_before(names, cutoff, k - 1);
        let last = (k - 1) as usize;
        assert(!h.contains(last));
        assert forall|i: int| 0 <= i < k implies (r.contains(#[trigger] (i as usize)) <==> (day_in(
            names[i]@,
        ) is Some && before(day_in(names[i]@)->0, cutoff))) by {
            if r != h {
                assert(r == h.push(last));
                assert(r[h.len() as int] == last);
                if h.contains(i as usize) {
                    let p = choose|p: int| 0 <= p < h.len() && h[p] == i as usize;
                    assert(r[p] == i as usize);
                }
                if r.contains(i as usize) && i != k - 1 {
                    let p = choose|p: int| 0 <= p < r.len() && r[p] == i as usize;
                    assert(p < h.len());
                    assert(h[p] == i as usize);
                }
            }
        }
    }
}

/// The oldest day is that of one of the dated files, and none is before it.
pub proof fn lemma_oldest(names: Seq<String>, k: int, i: int)
    requires
        0 <= i < k <= names.len(),
    ensures
        dated(names[i]@) is Some ==> oldest_day(names, k) is Some && !before(
            dated(names[i]@)->0,
            oldest_day(names, k)->0,
        ),
        oldest_day(names, k) is Some ==> exists|j: int|
            0 <= j < k && dated((#[trigger] names[j])@) == oldest_day(names, k),
    decreases k,
{
    lemma_oldest_of(names, k);
    assert(names[i] == names[i]);
}

#[verifier::rlimit(40)]
proof fn lemma_oldest_of(names: Seq<String>, k: int)
    requires
        0 <= k <= names.len(),
    ensures
        forall|i: int|
            0 <= i < k && dated((#[trigger] names[i])@) is Some ==> oldest_day(names, k) is Some
                && !before(dated(names[i]@)->0, oldest_day(names, k)->0),
        oldest_day(names, k) is Some ==> exists|j: int|
            0 <= j < k && dated((#[trigger] names[j])@) == oldest_day(names, k),
    decreases k,
{
    if k > 0 {
        lemma_oldest_of(names, k - 1);
        let b = oldest_day(names, k - 1);
        let d = dated(names[k - 1]@);
        let r = oldest_day(names, k);
        assert forall|i: int| 0 <= i < k && dated((#[trigger] names[i])@) is Some implies r is Some
            && !before(dated(names[i]@)->0, r->0) by {
            let e = dated(names[i]@)->0;
            if i == k - 1 {
                lemma_before_total(e, r->0);
                if b is Some {
                    lemma_before_total(e, b->0);
                }
            } else {
                assert(b is Some && !before(e, b->0));
                if d is Some && before(d->0, b->0) && before(e, d->0) {
                    lemma_before_transitive(e, d->0, b->0);
                }
            }
        }
        if r is Some {
            if d is Some && r == d {
                assert(dated(names[k - 1]@) == r);
            } else {
                let j = choose|j: int| 0 <= j < k - 1 && dated((#[trigger] names[j])@) == b;
                assert(dated(names[j]@) == r);
            }
        }
    }
}

/// The earliest time is that of the first record of one of the files, and none of them begins
/// before it.
pub proof fn lemma_earliest(names: Seq<String>, firsts: Seq<Vec<u8>>, k: int)
    requires
        0 <= k <= names.len(),
        names.len() == firsts.len(),
    ensures
        forall|i: int|
            0 <= i < k && dated((#[trigger] names[i])@) is Some && firsts[i]@.len() >= REC ==> (
            earliest_ts(names, firsts, k) is Some && earliest_ts(names, firsts, k)->0 <= row_at(
                firsts[i]@,
                0,
            ).ts),
        earliest_ts(names, firsts, k) is Some ==> exists|j: int|
            0 <= j < k && dated((#[trigger] names[j])@) is Some && firsts[j]@.len() >= REC && row_at(
                firsts[j]@,
                0,
            ).ts == earliest_ts(names, firsts, k)->0,
    decreases k,
{
    if k > 0 {
        lemma_earliest(names, firsts, k - 1);
        let m = earliest_ts(names, firsts, k - 1);
        let r = earliest_ts(names, firsts, k);
        if r is Some {
            if r == m {
                let j = choose|j: int|
                    0 <= j < k - 1 && dated((#[trigger] names[j])@) is Some && firsts[j]@.len()
                        >= REC && row_at(firsts[j]@, 0).ts == m->0;
                assert(dated(names[j]@) is Some);
            } else {
                assert(dated(names[k - 1]@) is Some);
            }
        }
    }
}

/// A day starts as many seconds after the first of January 1970 as the days before it have.
pub proof fn lemma_day_starts(t: Seq<char>, n: int)
    requires
        is_day_text(t, n),
        0 <= n,
        n * 86_400 <= u32::MAX,
    ensures
        day_start(t) == n * 86_400,
{
    lemma_day_text_reads(t, n);
}

// ---------------------------------------------------------------- the order of servers

proof fn lemma_no_digits(p: Seq<char>)
    requires
        forall|i: int| 0 <= i < p.len() ==> !is_digit(#[trigger] p[i]),
    ensures
        digits_in(p) == Seq::<char>::empty(),
    decreases p.len(),
{
    if p.len() > 0 {
        lemma_no_digits(p.drop_last());
        assert(!is_digit(p[p.len() - 1]));
    }
}

proof fn lemma_digits_joined(p: Seq<char>, q: Seq<char>)
    ensures
        digits_in(p + q) == digits_in(p) + digits_in(q),
    decreases q.len(),
{
    if q.len() == 0 {
        assert(p + q =~= p);
        assert(digits_in(p) + digits_in(q) =~= digits_in(p));
    } else {
        assert((p + q).drop_last() =~= p + q.drop_last());
        assert((p + q).last() == q.last());
        lemma_digits_joined(p, q.drop_last());
        assert(digits_in(p + q) =~= digits_in(p) + digits_in(q));
    }
}

proof fn lemma_all_kept(d: Seq<char>)
    requires
        all_digits(d),
    ensures
        digits_in(d) == d,
    decreases d.len(),
{
    if d.len() > 0 {
        assert(is_digit(d[d.len() - 1]));
        assert forall|i: int| 0 <= i < d.drop_last().len() implies is_digit(
            #[trigger] d.drop_last()[i],
        ) by {
            assert(d.drop_last()[i] == d[i]);
        }
        lemma_all_kept(d.drop_last());
        assert(d.drop_last().push(d.last()) =~= d);
    } else {
        assert(d =~= Seq::<char>::empty());
    }
}

/// The number of a server is the number in its name, whatever stands around it.
pub proof fn lemma_named_number(p: Seq<char>, n: u32, q: Seq<char>)
    requires
        forall|i: int| 0 <= i < p.len() ==> !is_digit(#[trigger] p[i]),
        forall|i: int| 0 <= i < q.len() ==> !is_digit(#[trigger] q[i]),
    ensures
        name_number(p + numeral(n as nat) + q) == n,
{
    let d = numeral(n as nat);
    lemma_numeral_number(n as nat);
    lemma_no_digits(p);
    lemma_no_digits(q);
    lemma_all_kept(d);
    lemma_digits_joined(p + d, q);
    lemma_digits_joined(p, d);
    let none = Seq::<char>::empty();
    assert(none + d + none =~= d);
}

/// Servers are listed by their numbers: the ninth before the fourteenth, though its name is not.
pub proof fn lemma_listed_by_number(p: Seq<char>, a: u32, b: u32)
    requires
        forall|i: int| 0 <= i < p.len() ==> !is_digit(#[trigger] p[i]),
        a < b,
    ensures
        listed_before(p + numeral(a as nat), p + numeral(b as nat)),
        !listed_before(p + numeral(b as nat), p + numeral(a as nat)),
{
    let none = Seq::<char>::empty();
    lemma_named_number(p, a, none);
    lemma_named_number(p, b, none);
    assert(p + numeral(a as nat) + none =~= p + numeral(a as nat));
    assert(p + numeral(b as nat) + none =~= p + numeral(b as nat));
}

/// A server without a number in its name, and one whose number has no room, is listed with
/// number zero: before every server of the same prefix that has one from one on.
pub proof fn lemma_listed_without_number(p: Seq<char>, n: u32, big: nat)
    requires
        forall|i: int| 0 <= i < p.len() ==> !is_digit(#[trigger] p[i]),
        n > 0,
        big > u32::MAX,
    ensures
        name_number(p) == 0,
        name_number(p + numeral(big)) == 0,
        listed_before(p, p + numeral(n as nat)),
        listed_before(p + numeral(big), p + numeral(n as nat)),
{
    let none = Seq::<char>::empty();
    lemma_no_digits(p);
    assert(number(none) == 0);
    lemma_named_number(p, n, none);
    assert(p + numeral(n as nat) + none =~= p + numeral(n as nat));
    lemma_numeral_number(big);
    lemma_all_kept(numeral(big));
    lemma_digits_joined(p, numeral(big));
    assert(none + numeral(big) =~= numeral(big));
}

/// Of two servers with the same number in their names the one whose name comes first is listed
/// first; of any two with different names one is listed before the other.
pub proof fn lemma_listed(a: Seq<char>, b: Seq<char>, c: Seq<char>)
    ensures
        name_number(a) == name_number(b) ==> listed_before(a, b) == before(a, b),
        a == b || listed_before(a, b) || listed_before(b, a),
        !(listed_before(a, b) && listed_before(b, a)),
        listed_before(a, b) && listed_before(b, c) ==> listed_before(a, c),
{
    lemma_before_total(a, b);
    if before(a, b) && before(b, c) {
        lemma_before_transitive(a, b, c);
    }
}

} // verus!
