//! The rate gate over a run of connections.
//!
//! Each connection that is let through leaves its stamp in the list, written with three decimal
//! places, and the next request is judged by that list, whichever process makes it. The two rules
//! then hold of the run as a whole.

use vstd::prelude::*;
use vstd::arithmetic::power2::{
    lemma2_to64, lemma2_to64_rest, lemma_pow2_adds, lemma_pow2_pos, lemma_pow2_strictly_increases,
    pow2,
};
use crate::decimal::ten;
use crate::double::{
    at_most, difference, half_even, is_scale, lemma_half_even_bounds, lemma_half_even_order,
    lemma_magnitude_of, lemma_magnitude_order, lemma_order, lemma_rounded_exact,
    lemma_rounded_order, lemma_scale, lemma_scale_is, lemma_whole_exact, less, magnitude_units, one,
    quotient, rounded, scale, whole, with_sign, Double, INF, STEP,
};
use crate::gate::{
    is_timeline, is_within, kept, lemma_difference_from, lemma_difference_order, lemma_gap_holds,
    lemma_kept, lemma_memory, lemma_stamps_round_trip, lemma_window_holds, stamps_in, stamps_text,
    thousandths, wait_at, within_span, Gate,
};

verus! {

// ---------------------------------------------------------------- stamps settle

/// Whether a number can be a time in seconds.
pub open spec fn is_clock(t: Double) -> bool {
    t.finite() && !t.negative()
}

/// The magnitude at scale `q` that has `h` of its steps.
proof fn lemma_steps(q: nat, h: nat)
    requires
        h <= 2 * STEP,
        q == 0 || h >= STEP,
    ensures
        magnitude_units(q * STEP as nat + h) == h * pow2(q),
{
    lemma2_to64();
    let m = q * STEP as nat + h;
    let s = STEP as int;
    if h < STEP {
        assert(q * STEP as nat == 0);
        assert(h * 1 == h);
    } else if h < 2 * STEP {
        vstd::arithmetic::div_mod::lemma_fundamental_div_mod_converse(
            m as int,
            s,
            q as int + 1,
            h - s,
        );
    } else {
        vstd::arithmetic::div_mod::lemma_fundamental_div_mod_converse(m as int, s, q as int + 2, 0);
        lemma_pow2_adds(1, q);
        let p = pow2(q) as int;
        assert(s * (2 * p) == (2 * s) * p) by (nonlinear_arith);
    }
}

/// The scale of `k` thousandths is so small that a step is less than a thousandth.
proof fn lemma_scale_of_clock(k: nat)
    requires
        k < 1000 * pow2(43),
    ensures
        scale(k * one(), 1000) <= 1064,
{
    let n = k * one();
    let q = scale(n, 1000);
    lemma_scale(n, 1000);
    if q > 1064 {
        lemma_pow2_adds(43, 1074);
        lemma_pow2_pos(1074);
        if 52 + q > 1117 {
            lemma_pow2_strictly_increases(1117, (52 + q) as nat);
        }
        let a = pow2(43) as int;
        let u = one() as int;
        assert(k * u < 1000 * a * u) by (nonlinear_arith)
            requires
                k < 1000 * a,
                u > 0,
        ;
        assert(1000 * a * u == 1000 * (a * u)) by (nonlinear_arith);
    }
}

/// Thousandths read from a number that was rounded to them are the same ones.
proof fn lemma_same_thousandths(k: nat)
    requires
        k < 1000 * pow2(43),
    ensures
        rounded(k * one(), 1000) < INF,
        half_even(magnitude_units(rounded(k * one(), 1000)) * 1000, one()) == k,
        2 * (k * one()) - one() < 2 * (magnitude_units(rounded(k * one(), 1000)) * 1000) < 2 * (k
            * one()) + one(),
{
    let n = k * one();
    let q = scale(n, 1000);
    let p = pow2(q) as int;
    let u = one() as int;
    lemma2_to64();
    lemma2_to64_rest();
    lemma_scale(n, 1000);
    lemma_scale_of_clock(k);
    lemma_pow2_pos(q);
    lemma_pow2_adds(53, q);
    let d = (1000 * pow2(q)) as nat;
    let h = half_even(n, d);
    lemma_half_even_bounds(n, d);
    // h is at most 2^53, and at least 2^52 where the scale is not the least
    assert(h <= 2 * STEP) by {
        let b = 2 * STEP as int;
        assert(1000 * (b * p) == b * d) by (nonlinear_arith)
            requires
                d == 1000 * p,
        ;
        if h > b {
            assert((b + 1) * d <= h * d) by (nonlinear_arith)
                requires
                    h >= b + 1,
                    d > 0,
            ;
            assert((b + 1) * d == b * d + d) by (nonlinear_arith);
        }
    }
    if q > 0 {
        lemma_pow2_adds(52, q);
        let b = STEP as int;
        assert(1000 * (b * p) == b * d) by (nonlinear_arith)
            requires
                d == 1000 * p,
        ;
        if h < b {
            assert((b - 1) * d >= h * d) by (nonlinear_arith)
                requires
                    h <= b - 1,
                    d > 0,
            ;
            assert((b - 1) * d == b * d - d) by (nonlinear_arith);
        }
    }
    lemma_steps(q, h);
    assert(q * STEP as nat + h < INF);
    let v = magnitude_units(rounded(n, 1000)) as int;
    assert(v == h * p);
    assert(v * 1000 == h * d) by (nonlinear_arith)
        requires
            v == h * p,
            d == 1000 * p,
    ;
    // a step is less than half of what makes a thousandth
    assert(d < u) by {
        lemma_pow2_adds(10, 1064);
        if q < 1064 {
            lemma_pow2_strictly_increases(q, 1064);
        }
    }
    let w = (v * 1000) as nat;
    let y = half_even(w, one());
    lemma_half_even_bounds(w, one());
    assert(y == k) by {
        if y > k {
            assert((k + 1) * u <= y * u) by (nonlinear_arith)
                requires
                    y >= k + 1,
                    u > 0,
            ;
            assert((k + 1) * u == k * u + u) by (nonlinear_arith);
        }
        if y < k {
            assert((y + 1) * u <= k * u) by (nonlinear_arith)
                requires
                    k >= y + 1,
                    u > 0,
            ;
            assert((y + 1) * u == y * u + u) by (nonlinear_arith);
        }
    }
}

/// A number of thousandths that is within half a step of a number rounds to that number.
proof fn lemma_rounds_back(m: nat, k: nat)
    requires
        STEP <= m < INF,
        ({
            let e = (m / STEP as nat - 1) as nat;
            let f = (STEP + m % STEP as nat) as nat;
            let d = (1000 * pow2(e)) as nat;
            &&& 2 * (f * d) - d < 2 * (k * one()) < 2 * (f * d) + d
            &&& f == STEP ==> k * one() == f * d
        }),
    ensures
        rounded(k * one(), 1000) == m,
{
    lemma2_to64();
    lemma2_to64_rest();
    let e = (m / STEP as nat - 1) as nat;
    let f = (STEP + m % STEP as nat) as nat;
    let d = (1000 * pow2(e)) as nat;
    let p = pow2(e) as int;
    let n = k * one();
    let s = STEP as int;
    lemma_pow2_pos(e);
    lemma_pow2_adds(53, e);
    lemma_pow2_adds(52, e);
    assert(1000 * ((2 * s) * p) == (2 * s) * d) by (nonlinear_arith)
        requires
            d == 1000 * p,
    ;
    assert(1000 * (s * p) == s * d) by (nonlinear_arith)
        requires
            d == 1000 * p,
    ;
    assert((f + 1) * d == f * d + d) by (nonlinear_arith);
    assert((f - 1) * d == f * d - d) by (nonlinear_arith);
    assert((f + 1) * d <= (2 * s) * d) by (nonlinear_arith)
        requires
            f + 1 <= 2 * s,
            d > 0,
    ;
    if f > STEP {
        assert(s * d <= (f - 1) * d) by (nonlinear_arith)
            requires
                s <= f - 1,
                d > 0,
        ;
    }
    assert(is_scale(n, 1000, e));
    lemma_scale_is(n, 1000, e);
    let y = half_even(n, d);
    lemma_half_even_bounds(n, d);
    if y > f {
        assert((f + 1) * d <= y * d) by (nonlinear_arith)
            requires
                y >= f + 1,
                d > 0,
        ;
    }
    if y < f {
        assert(y * d <= (f - 1) * d) by (nonlinear_arith)
            requires
                y <= f - 1,
                d > 0,
        ;
    }
    assert(m == e * STEP as nat + f);
}

/// What is a multiple of `u` has no remainder.
proof fn lemma_half_even_exact(c: nat, u: nat)
    requires
        u > 0,
    ensures
        half_even(c * u, u) == c,
{
    vstd::arithmetic::div_mod::lemma_fundamental_div_mod_converse(
        (c * u) as int,
        u as int,
        c as int,
        0,
    );
}

/// From some hundred thousand years on a step is more than a thousandth, and rounding to
/// thousandths changes nothing.
proof fn lemma_large_settles(t: Double)
    requires
        is_clock(t),
        pow2(43) * one() <= t.size(),
    ensures
        thousandths(t) == t,
{
    reveal_with_fuel(ten, 4);
    assert(ten(3) == 1000);
    lemma2_to64();
    lemma2_to64_rest();
    let m = t.magnitude();
    lemma_pow2_adds(43, 1074);
    lemma_pow2_pos(1074);
    let u = one() as int;
    if m < STEP {
        lemma_pow2_strictly_increases(52, 1117);
    }
    let e = (m / STEP as nat - 1) as nat;
    let f = (STEP + m % STEP as nat) as nat;
    let p = pow2(e) as int;
    lemma_pow2_pos(e);
    assert(e >= 1065) by {
        if e < 1065 {
            lemma_pow2_adds(53, e);
            if e < 1064 {
                lemma_pow2_strictly_increases(53 + e, 1117);
            }
            assert(f * p < 0x20_0000_0000_0000 * p) by (nonlinear_arith)
                requires
                    f < 0x20_0000_0000_0000,
                    p > 0,
            ;
        }
    }
    let d = (1000 * pow2(e)) as nat;
    let n = (t.size() * 1000) as nat;
    let k = half_even(n, one());
    assert(n == f * d) by (nonlinear_arith)
        requires
            n == (f * p) * 1000,
            d == 1000 * p,
    ;
    lemma_half_even_bounds(n, one());
    if e >= 1071 {
        let c = pow2((e - 1071) as nat) as int;
        lemma_pow2_adds(1071, (e - 1071) as nat);
        lemma_pow2_adds(3, 1071);
        let v = pow2(1071) as int;
        assert(n == (125 * f * c) * u) by (nonlinear_arith)
            requires
                n == (f * p) * 1000,
                p == v * c,
                u == 8 * v,
        ;
        lemma_pow2_pos((e - 1071) as nat);
        assert(125 * f * c >= 0) by (nonlinear_arith)
            requires
                f >= 0,
                c >= 0,
        ;
        lemma_half_even_exact((125 * f * c) as nat, one());
    } else {
        assert(u < d) by {
            lemma_pow2_adds(9, 1065);
            if e > 1065 {
                lemma_pow2_strictly_increases(1065, e);
            }
        }
        if f == STEP {
            let c = pow2((e + 52 - 1074) as nat) as int;
            lemma_pow2_adds(52, e);
            lemma_pow2_adds((e + 52 - 1074) as nat, 1074);
            assert(n == (1000 * c) * u) by (nonlinear_arith)
                requires
                    n == (f * p) * 1000,
                    f * p == c * u,
            ;
            lemma_half_even_exact((1000 * c) as nat, one());
        }
    }
    assert(d > 0);
    lemma_rounds_back(m, k);
}

/// A stamp that was read from a list is written as it was read.
proof fn lemma_stamp_settles(t: Double)
    requires
        is_clock(t),
    ensures
        is_clock(thousandths(t)),
        thousandths(thousandths(t)) == thousandths(t),
{
    if pow2(43) * one() <= t.size() {
        lemma_large_settles(t);
    } else {
        reveal_with_fuel(ten, 4);
        assert(ten(3) == 1000);
        let k = half_even(t.size() * 1000, one());
        lemma_pow2_pos(1074);
        lemma_thousandths_bound(t);
        if k < 1000 * pow2(43) {
            lemma_same_thousandths(k);
        } else {
            let a = pow2(43) as int;
            let u = one() as int;
            lemma2_to64();
            lemma2_to64_rest();
            let m = lemma_magnitude_of(pow2(43), 1074);
            lemma_rounded_exact(m);
            assert((k * u) * 1 == (a * u) * 1000) by (nonlinear_arith)
                requires
                    k == 1000 * a,
            ;
            lemma_rounded_order(k * one(), 1000, pow2(43) * one(), 1);
            lemma_rounded_order(pow2(43) * one(), 1, k * one(), 1000);
            lemma_large_settles(thousandths(t));
        }
    }
}

/// A time before that has no more thousandths than the bound has.
proof fn lemma_thousandths_bound(t: Double)
    requires
        t.size() <= pow2(43) * one(),
    ensures
        half_even(t.size() * 1000, one()) <= 1000 * pow2(43),
{
    lemma_pow2_pos(1074);
    let u = one() as int;
    let b = 1000 * pow2(43) as int;
    let n = (t.size() * 1000) as nat;
    lemma_half_even_bounds(n, one());
    let k = half_even(n, one()) as int;
    let a = pow2(43) as int;
    assert(n <= b * u) by {
        assert((a * u) * 1000 == (1000 * a) * u) by (nonlinear_arith);
    }
    if k > b {
        assert((b + 1) * u <= k * u) by (nonlinear_arith)
            requires
                k >= b + 1,
                u > 0,
        ;
        assert((b + 1) * u == b * u + u) by (nonlinear_arith);
    }
}

/// Of two times the later has no earlier stamp.
proof fn lemma_stamp_order(a: Double, b: Double)
    requires
        is_clock(a),
        is_clock(b),
        at_most(a, b),
    ensures
        at_most(thousandths(a), thousandths(b)),
{
    reveal_with_fuel(ten, 4);
    assert(ten(3) == 1000);
    lemma_pow2_pos(1074);
    lemma_order(a, b);
    let u = one() as int;
    let j = half_even(a.size() * 1000, one());
    let k = half_even(b.size() * 1000, one());
    let m = (a.size() * 1000) as int;
    let n = (b.size() * 1000) as int;
    assert(m * u <= n * u) by (nonlinear_arith)
        requires
            m <= n,
            u >= 0,
    ;
    lemma_half_even_order(a.size() * 1000, one(), b.size() * 1000, one());
    assert((j * u) * 1000 <= (k * u) * 1000) by (nonlinear_arith)
        requires
            j <= k,
            u >= 0,
    ;
    lemma_rounded_order(j * one(), 1000, k * one(), 1000);
    lemma_stamp_settles(a);
    lemma_stamp_settles(b);
}

// ---------------------------------------------------------------- a run

/// The stamps that connections at these times leave.
pub open spec fn stamps_of(ts: Seq<Double>) -> Seq<Double> {
    Seq::new(ts.len(), |i: int| thousandths(ts[i]))
}

/// Whether the rate gate lets a connection through at `t`, where `raw` is the list of stamps.
pub open spec fn lets_through(g: Gate, raw: Seq<char>, t: Double) -> bool {
    !less(whole(0), wait_at(g, kept(g, stamps_in(raw), t), t))
}

/// The list of stamps, `raw` at first, after the first `k` connections.
pub open spec fn list_after(g: Gate, raw: Seq<char>, ts: Seq<Double>, k: int) -> Seq<char>
    decreases k,
{
    if k <= 0 {
        raw
    } else {
        let t = ts[k - 1];
        stamps_text(kept(g, stamps_in(list_after(g, raw, ts, k - 1)), t).push(t))
    }
}

/// Whether connections were let through at these times, one after the other, where `raw` was the
/// list at first. The clock may have been set back in between.
pub open spec fn is_run(g: Gate, raw: Seq<char>, ts: Seq<Double>) -> bool {
    &&& forall|k: int| 0 <= k < ts.len() ==> is_clock(#[trigger] ts[k])
    &&& forall|k: int|
        0 <= k < ts.len() ==> #[trigger] lets_through(g, list_after(g, raw, ts, k), ts[k])
}

/// What is in the list after one more connection.
proof fn lemma_list_grows(g: Gate, raw: Seq<char>, t: Double)
    requires
        g.wf(),
        is_clock(t),
        lets_through(g, raw, t),
    ensures
        ({
            let h = kept(g, stamps_in(raw), t).push(t);
            stamps_in(stamps_text(h)) == stamps_of(h)
        }),
{
    let all = stamps_in(raw);
    let h = kept(g, all, t);
    lemma_kept(g, all, t);
    assert forall|i: int| 0 <= i < h.push(t).len() implies (#[trigger] h.push(t)[i]).finite() by {
        if i < h.len() {
            lemma_gap_holds(g, all, t, i);
            let x = h[i];
            assert(is_within(t, x, g.memory()));
            lemma_gap_positive(g);
        }
    }
    lemma_stamps_round_trip(h.push(t));
}

/// The least gap is half a second at least, and so more than nothing.
proof fn lemma_gap_positive(g: Gate)
    requires
        g.wf(),
    ensures
        less(whole(0), g.min_gap),
{
    lemma_whole_exact(0);
    assert(whole(0).rank() == 0) by {
        if whole(0).magnitude() > 0 {
            lemma_magnitude_order(0, whole(0).magnitude());
        }
    }
    let m = lemma_half_second();
    assert(m > 0) by {
        assert(magnitude_units(0) == 0);
        lemma_pow2_pos(1073);
    }
}

/// The magnitude of half a second.
proof fn lemma_half_second() -> (m: nat)
    ensures
        quotient(whole(1), whole(2)) == with_sign(false, m),
        m < INF,
        magnitude_units(m) == pow2(1073),
{
    lemma2_to64();
    lemma_whole_exact(1);
    lemma_whole_exact(2);
    lemma_pow2_pos(1074);
    lemma_pow2_adds(1, 1073);
    lemma_pow2_adds(1, 1072);
    let u = one() as int;
    let h = pow2(1073) as int;
    assert(whole(1).size() == one() && whole(2).size() == 2 * one()) by {
        assert(1 * u == u) by (nonlinear_arith);
    }
    assert(whole(2).magnitude() != 0) by {
        assert(magnitude_units(0) == 0);
    }
    assert((u * u) * 1 == h * (2 * u)) by (nonlinear_arith)
        requires
            u == 2 * h,
    ;
    lemma_rounded_order(one() * one(), 2 * one(), pow2(1073), 1);
    lemma_rounded_order(pow2(1073), 1, one() * one(), 2 * one());
    let m = lemma_magnitude_of(2, 1072);
    lemma_rounded_exact(m);
    m
}

/// A stamp is less than half a second before its time.
proof fn lemma_stamp_near(t: Double)
    requires
        is_clock(t),
    ensures
        less(difference(t, thousandths(t)), quotient(whole(1), whole(2))),
{
    reveal_with_fuel(ten, 4);
    assert(ten(3) == 1000);
    lemma_pow2_pos(1074);
    lemma_pow2_pos(1072);
    lemma_pow2_adds(2, 1072);
    lemma_pow2_adds(1, 1072);
    lemma2_to64();
    lemma2_to64_rest();
    lemma_stamp_settles(t);
    let m = lemma_half_second();
    let q = lemma_magnitude_of(1, 1072);
    lemma_rounded_exact(q);
    assert(magnitude_units(q) == pow2(1072));
    assert(q < m) by {
        if m < q {
            lemma_magnitude_order(m, q);
        }
    }
    let s = thousandths(t);
    let x = t.size() - s.size();
    if pow2(43) * one() <= t.size() {
        lemma_large_settles(t);
    } else {
        let k = half_even(t.size() * 1000, one());
        lemma_half_even_bounds(t.size() * 1000, one());
        lemma_thousandths_bound(t);
        if k < 1000 * pow2(43) {
            lemma_same_thousandths(k);
        } else {
            let a = pow2(43) as int;
            let u = one() as int;
            let e = lemma_magnitude_of(pow2(43), 1074);
            lemma_rounded_exact(e);
            assert((k * u) * 1 == (a * u) * 1000) by (nonlinear_arith)
                requires
                    k == 1000 * a,
            ;
            lemma_rounded_order(k * one(), 1000, pow2(43) * one(), 1);
            lemma_rounded_order(pow2(43) * one(), 1, k * one(), 1000);
        }
        assert(2000 * x < 2 * one());
    }
    assert(x <= pow2(1072));
    if x > 0 {
        lemma_rounded_order(x as nat, 1, pow2(1072), 1);
    }
}

/// Of stamps in the order of time, those within a span are the last ones.
proof fn lemma_within_last(v: Seq<Double>, t: Double, span: Double, k: int) -> (a: int)
    requires
        is_timeline(v),
        t.finite(),
        !span.nan(),
        0 <= k <= v.len(),
    ensures
        0 <= a <= k,
        within_span(v, t, span, k) == v.subrange(a, k),
        forall|j: int| 0 <= j < a ==> !is_within(t, #[trigger] v[j], span),
        forall|j: int| a <= j < k ==> is_within(t, #[trigger] v[j], span),
    decreases k,
{
    if k == 0 {
        assert(v.subrange(0, 0) =~= within_span(v, t, span, 0));
        0
    } else {
        let b = lemma_within_last(v, t, span, k - 1);
        let l = v[k - 1];
        if is_within(t, l, span) {
            assert(v.subrange(b, k - 1).push(l) =~= v.subrange(b, k));
            b
        } else {
            assert forall|j: int| 0 <= j < k implies !is_within(t, #[trigger] v[j], span) by {
                lemma_finite_difference(t, v[j]);
                lemma_finite_difference(t, l);
                assert(at_most(v[j], v[k - 1]));
                lemma_difference_order(t, v[j], l);
            }
            assert(b == k - 1) by {
                if b < k - 1 {
                    assert(is_within(t, v[b], span));
                }
            }
            assert(within_span(v, t, span, k) =~= v.subrange(k, k));
            k
        }
    }
}

proof fn lemma_finite_difference(t: Double, x: Double)
    requires
        t.finite(),
        x.finite(),
    ensures
        !difference(t, x).nan(),
{
}

/// Whether a text is a list of stamps as the rate gate leaves it: written with three decimal
/// places, in the order of time.
pub open spec fn is_list(raw: Seq<char>) -> bool {
    &&& is_timeline(stamps_in(raw))
    &&& forall|i: int|
        0 <= i < stamps_in(raw).len() ==> is_clock(#[trigger] stamps_in(raw)[i]) && thousandths(
            stamps_in(raw)[i],
        ) == stamps_in(raw)[i]
}

/// All stamps there have been: those of the list at first, then those of the run.
pub open spec fn all_stamps(raw: Seq<char>, ts: Seq<Double>) -> Seq<Double> {
    stamps_in(raw) + stamps_of(ts)
}

/// All times there have been.
spec fn all_times(raw: Seq<char>, ts: Seq<Double>) -> Seq<Double> {
    stamps_in(raw) + ts
}

/// The latest stamp of the list at first is no later than the first connection.
proof fn lemma_first_after(g: Gate, raw: Seq<char>, t: Double)
    requires
        g.wf(),
        is_list(raw),
        is_clock(t),
        lets_through(g, raw, t),
        stamps_in(raw).len() > 0,
    ensures
        at_most(g.min_gap, difference(t, stamps_in(raw).last())),
        at_most(stamps_in(raw).last(), t),
{
    let all = stamps_in(raw);
    let n = all.len() as int;
    let x = all[n - 1];
    lemma_last_gap(g, all, t);
    lemma_gap_positive(g);
    lemma_order(x, t);
}

/// Where a connection is let through, the last stamp is at least the least gap back.
proof fn lemma_last_gap(g: Gate, all: Seq<Double>, t: Double)
    requires
        g.wf(),
        t.finite(),
        all.len() > 0,
        all.last().finite(),
        !less(whole(0), wait_at(g, kept(g, all, t), t)),
    ensures
        at_most(g.min_gap, difference(t, all.last())),
{
    let n = all.len() as int;
    let x = all[n - 1];
    lemma_finite_difference(t, x);
    lemma_memory(g);
    if is_within(t, x, g.memory()) {
        let w = within_span(all, t, g.memory(), n);
        assert(w.last() == x);
        let u = kept(g, all, t);
        assert(u.last() == x);
        lemma_gap_holds(g, all, t, u.len() - 1);
    }
}

/// A connection comes at least the least gap after the stamp of the one before.
proof fn lemma_next_gap(g: Gate, raw: Seq<char>, ts: Seq<Double>, k: int)
    requires
        g.wf(),
        is_run(g, raw, ts),
        0 < k < ts.len(),
    ensures
        at_most(g.min_gap, difference(ts[k], thousandths(ts[k - 1]))),
{
    let before = list_after(g, raw, ts, k - 1);
    let p = ts[k - 1];
    assert(is_clock(ts[k - 1]) && is_clock(ts[k]));
    assert(lets_through(g, before, ts[k - 1]));
    lemma_list_grows(g, before, p);
    let h = kept(g, stamps_in(before), p).push(p);
    let all = stamps_of(h);
    assert(all.last() == thousandths(p));
    lemma_stamp_settles(p);
    assert(lets_through(g, list_after(g, raw, ts, k), ts[k]));
    lemma_last_gap(g, all, ts[k]);
}

/// The times of a run grow: while the clock is set back no connection is let through.
pub proof fn lemma_run_order(g: Gate, raw: Seq<char>, ts: Seq<Double>, j: int, k: int)
    requires
        g.wf(),
        is_run(g, raw, ts),
        0 <= j <= k < ts.len(),
    ensures
        at_most(ts[j], ts[k]),
    decreases k,
{
    assert(is_clock(ts[j]) && is_clock(ts[k]));
    lemma_order(ts[j], ts[k]);
    if j < k {
        lemma_run_order(g, raw, ts, j, k - 1);
        lemma_next_gap(g, raw, ts, k);
        let p = ts[k - 1];
        let t = ts[k];
        assert(is_clock(ts[k - 1]));
        lemma_order(p, t);
        lemma_order(t, p);
        if less(t, p) {
            lemma_stamp_settles(p);
            lemma_stamp_settles(t);
            lemma_stamp_order(t, p);
            lemma_stamp_near(t);
            lemma_finite_difference(t, thousandths(t));
            lemma_finite_difference(t, thousandths(p));
            lemma_difference_order(t, thousandths(t), thousandths(p));
        }
    }
}

/// All stamps of a run are in the order of time.
proof fn lemma_run_timeline(g: Gate, raw: Seq<char>, ts: Seq<Double>)
    requires
        g.wf(),
        is_list(raw),
        is_run(g, raw, ts),
    ensures
        is_timeline(all_stamps(raw, ts)),
        all_stamps(raw, ts) == stamps_of(all_times(raw, ts)),
        forall|i: int|
            0 <= i < all_times(raw, ts).len() ==> is_clock(#[trigger] all_times(raw, ts)[i]),
{
    let r = all_stamps(raw, ts);
    let c = all_times(raw, ts);
    let n = stamps_in(raw).len() as int;
    assert forall|i: int| 0 <= i < c.len() implies is_clock(#[trigger] c[i]) by {
        if i < n {
            assert(c[i] == stamps_in(raw)[i]);
        } else {
            assert(c[i] == ts[i - n]);
        }
    }
    assert(r =~= stamps_of(c)) by {
        assert forall|i: int| 0 <= i < r.len() implies r[i] == #[trigger] stamps_of(c)[i] by {
            if i < n {
                assert(c[i] == stamps_in(raw)[i]);
            } else {
                assert(c[i] == ts[i - n]);
            }
        }
    }
    assert forall|i: int| 0 <= i < r.len() implies (#[trigger] r[i]).finite() by {
        assert(is_clock(c[i]));
        lemma_stamp_settles(c[i]);
    }
    assert forall|i: int, j: int| 0 <= i <= j < r.len() implies at_most(
        #[trigger] r[i],
        #[trigger] r[j],
    ) by {
        assert(is_clock(c[i]) && is_clock(c[j]));
        assert(at_most(c[i], c[j])) by {
            if j < n {
                assert(at_most(stamps_in(raw)[i], stamps_in(raw)[j]));
            } else if i >= n {
                lemma_run_order(g, raw, ts, i - n, j - n);
            } else {
                assert(lets_through(g, list_after(g, raw, ts, 0), ts[0]));
                assert(is_clock(ts[0]));
                lemma_first_after(g, raw, ts[0]);
                assert(at_most(stamps_in(raw)[i], stamps_in(raw)[n - 1]));
                lemma_run_order(g, raw, ts, 0, j - n);
            }
        }
        lemma_stamp_order(c[i], c[j]);
    }
}

/// What has happened when `k` connections of a run were let through: the list holds the stamps
/// from some place `s` on, and those before it are a window back.
spec fn holds_from(g: Gate, raw: Seq<char>, ts: Seq<Double>, k: int, s: int) -> bool {
    let all = all_stamps(raw, ts);
    let n = stamps_in(raw).len() as int;
    &&& 0 <= s <= n + k
    &&& k == 0 ==> s == 0
    &&& stamps_in(list_after(g, raw, ts, k)) == all.subrange(s, n + k)
    &&& forall|j: int| 0 <= j < s ==> !is_within(ts[k - 1], #[trigger] all[j], g.window)
}

/// Which stamps matter to the request that comes after `k` connections of a run: those from
/// place `r` on, and those before it are a window back.
proof fn lemma_run_kept(g: Gate, raw: Seq<char>, ts: Seq<Double>, k: int, s: int) -> (r: int)
    requires
        g.wf(),
        is_list(raw),
        is_run(g, raw, ts),
        0 <= k < ts.len(),
        holds_from(g, raw, ts, k, s),
    ensures
        0 <= r <= stamps_in(raw).len() + k,
        kept(g, stamps_in(list_after(g, raw, ts, k)), ts[k]) == all_stamps(raw, ts).subrange(
            r,
            stamps_in(raw).len() + k,
        ),
        forall|j: int|
            0 <= j < r ==> !is_within(ts[k], #[trigger] all_stamps(raw, ts)[j], g.window),
{
    let all = all_stamps(raw, ts);
    let e = stamps_in(raw).len() + k;
    let t = ts[k];
    let h = all.subrange(s, e);
    lemma_run_timeline(g, raw, ts);
    lemma_memory(g);
    assert(is_clock(ts[k]));
    assert(is_timeline(h));
    let a = lemma_within_last(h, t, g.memory(), h.len() as int);
    let w = h.subrange(a, h.len() as int);
    assert(w =~= all.subrange(s + a, e));
    let r = if w.len() > g.room() {
        e - g.room()
    } else {
        s + a
    };
    let u = all.subrange(r, e);
    assert(kept(g, h, t) =~= u);
    assert(lets_through(g, list_after(g, raw, ts, k), ts[k]));
    lemma_window_holds(g, h, t);
    assert forall|j: int| 0 <= j < r implies !is_within(t, #[trigger] all[j], g.window) by {
        if j < s {
            let before = ts[k - 1];
            assert(is_clock(ts[k - 1]));
            lemma_run_order(g, raw, ts, k - 1, k);
            lemma_difference_from(before, t, all[j]);
            assert(!is_within(before, all[j], g.window));
        } else if j < s + a {
            assert(h[j - s] == all[j]);
        } else if is_within(t, all[j], g.window) {
            // then all that is kept is within the window, more than may be
            assert(is_timeline(u));
            let b = lemma_within_last(u, t, g.window, u.len() as int);
            if b > 0 {
                assert(u[0] == all[r]);
                lemma_finite_difference(t, all[j]);
                lemma_finite_difference(t, all[r]);
                assert(at_most(all[j], all[r]));
                lemma_difference_order(t, all[j], all[r]);
                assert(is_within(t, u[0], g.window));
            }
            assert(within_span(u, t, g.window, u.len() as int).len() == g.room());
        }
    }
    r
}

/// The list of a run holds all stamps from some place on.
proof fn lemma_run_holds(g: Gate, raw: Seq<char>, ts: Seq<Double>, k: int) -> (s: int)
    requires
        g.wf(),
        is_list(raw),
        is_run(g, raw, ts),
        0 <= k <= ts.len(),
    ensures
        holds_from(g, raw, ts, k, s),
    decreases k,
{
    let all = all_stamps(raw, ts);
    let n = stamps_in(raw).len() as int;
    if k == 0 {
        assert(stamps_in(raw) =~= all.subrange(0, n));
        0
    } else {
        let p = k - 1;
        let t = ts[p];
        let before = list_after(g, raw, ts, p);
        let s = lemma_run_holds(g, raw, ts, p);
        let r = lemma_run_kept(g, raw, ts, p, s);
        let h = kept(g, stamps_in(before), t).push(t);
        let c = all_times(raw, ts);
        lemma_run_timeline(g, raw, ts);
        assert(is_clock(ts[p]));
        assert(lets_through(g, before, ts[p]));
        lemma_list_grows(g, before, t);
        assert(stamps_of(h) =~= all.subrange(r, n + k)) by {
            assert forall|i: int| 0 <= i < h.len() implies #[trigger] stamps_of(h)[i]
                == all.subrange(r, n + k)[i] by {
                if i < h.len() - 1 {
                    assert(is_clock(c[r + i]));
                    lemma_stamp_settles(c[r + i]);
                    assert(h[i] == all[r + i]);
                    assert(all[r + i] == stamps_of(c)[r + i]);
                }
            }
        }
        r
    }
}

/// The first rule over a run, whatever the list was at first: a connection comes at least the
/// least gap after the stamp of any before it.
pub proof fn lemma_run_gap(g: Gate, raw: Seq<char>, ts: Seq<Double>, j: int, k: int)
    requires
        g.wf(),
        is_run(g, raw, ts),
        0 <= j < k < ts.len(),
    ensures
        at_most(g.min_gap, difference(ts[k], thousandths(ts[j]))),
{
    let p = ts[k - 1];
    let t = ts[k];
    assert(is_clock(ts[j]) && is_clock(ts[k - 1]) && is_clock(ts[k]));
    lemma_next_gap(g, raw, ts, k);
    lemma_run_order(g, raw, ts, j, k - 1);
    lemma_stamp_order(ts[j], p);
    lemma_stamp_settles(p);
    lemma_stamp_settles(ts[j]);
    lemma_finite_difference(t, thousandths(ts[j]));
    lemma_finite_difference(t, thousandths(p));
    lemma_difference_order(t, thousandths(ts[j]), thousandths(p));
}

/// The first rule holds of the stamps in the list at first as well: any connection of a run comes
/// at least the least gap after each of them.
pub proof fn lemma_run_gap_of_list(g: Gate, raw: Seq<char>, ts: Seq<Double>, i: int, k: int)
    requires
        g.wf(),
        is_list(raw),
        is_run(g, raw, ts),
        0 <= i < stamps_in(raw).len(),
        0 <= k < ts.len(),
    ensures
        at_most(g.min_gap, difference(ts[k], stamps_in(raw)[i])),
{
    let x = stamps_in(raw)[i];
    let l = stamps_in(raw).last();
    assert(is_clock(ts[0]) && is_clock(ts[k]));
    assert(lets_through(g, list_after(g, raw, ts, 0), ts[0]));
    lemma_first_after(g, raw, ts[0]);
    assert(at_most(x, stamps_in(raw)[stamps_in(raw).len() - 1]));
    lemma_finite_difference(ts[0], x);
    lemma_finite_difference(ts[0], l);
    lemma_difference_order(ts[0], x, l);
    lemma_run_order(g, raw, ts, 0, k);
    lemma_difference_from(ts[0], ts[k], x);
}

/// The second rule over a run: of all earlier stamps, those in the list at first and those of the
/// run, fewer are less than a window back than may be in one.
pub proof fn lemma_run_window(g: Gate, raw: Seq<char>, ts: Seq<Double>, k: int)
    requires
        g.wf(),
        is_list(raw),
        is_run(g, raw, ts),
        0 <= k < ts.len(),
    ensures
        within_span(all_stamps(raw, ts), ts[k], g.window, stamps_in(raw).len() + k).len()
            < g.max_per_window,
{
    let all = all_stamps(raw, ts);
    let e = stamps_in(raw).len() + k;
    let t = ts[k];
    let s = lemma_run_holds(g, raw, ts, k);
    let r = lemma_run_kept(g, raw, ts, k, s);
    let u = all.subrange(r, e);
    assert(is_clock(ts[k]));
    assert(lets_through(g, list_after(g, raw, ts, k), ts[k]));
    lemma_window_holds(g, stamps_in(list_after(g, raw, ts, k)), t);
    lemma_run_timeline(g, raw, ts);
    assert(is_timeline(u));
    let a = lemma_within_last(all, t, g.window, e);
    let b = lemma_within_last(u, t, g.window, u.len() as int);
    assert(a >= r + b) by {
        if a < r {
            assert(is_within(t, all[a], g.window));
        } else if a < r + b {
            assert(u[a - r] == all[a]);
        }
    }
}

/// The rate gate leaves a list as it is meant to be.
pub proof fn lemma_run_list(g: Gate, raw: Seq<char>, ts: Seq<Double>, k: int)
    requires
        g.wf(),
        is_list(raw),
        is_run(g, raw, ts),
        0 <= k <= ts.len(),
    ensures
        is_list(list_after(g, raw, ts, k)),
{
    let s = lemma_run_holds(g, raw, ts, k);
    let all = all_stamps(raw, ts);
    let c = all_times(raw, ts);
    let l = list_after(g, raw, ts, k);
    lemma_run_timeline(g, raw, ts);
    assert forall|i: int| 0 <= i < stamps_in(l).len() implies is_clock(#[trigger] stamps_in(l)[i])
        && thousandths(stamps_in(l)[i]) == stamps_in(l)[i] by {
        assert(stamps_in(l)[i] == stamps_of(c)[s + i]);
        assert(is_clock(c[s + i]));
        lemma_stamp_settles(c[s + i]);
    }
}

} // verus!
