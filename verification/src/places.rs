//! How close written numbers are to what they stand for.

use vstd::prelude::*;
use vstd::arithmetic::power2::lemma_pow2_pos;
use crate::double::{
    lemma_magnitude_order, lemma_rounded_order, lemma_whole_exact, magnitude_units, nearest, one,
    product, quotient, rounded, whole, with_sign, Double, INF,
};
use crate::json::Json;
use crate::written::{is_writable, is_writable_num, num_back, three_places};

verus! {

/// The largest number of thousandths that is looked at: up to it, integers are exact.
pub open spec fn many() -> nat {
    9_000_000_000_000_000
}

proof fn lemma_between(a: nat, b: nat, m: nat)
    requires
        a <= b,
        b < INF,
        a <= m <= b,
    ensures
        magnitude_units(a) <= magnitude_units(m) <= magnitude_units(b),
{
    if a < m {
        lemma_magnitude_order(a, m);
    }
    if m < b {
        lemma_magnitude_order(m, b);
    }
}

#[verifier::rlimit(40)]
proof fn lemma_thousandfold(n: Double, a: nat)
    requires
        n.finite(),
        a < many(),
        a * one() <= 1000 * n.size() <= (a + 1) * one(),
    ensures
        product(n, whole(1000)).finite(),
        product(n, whole(1000)).negative() == n.negative(),
        a * one() <= product(n, whole(1000)).size() <= (a + 1) * one(),
{
    let u = one();
    lemma_pow2_pos(1074);
    lemma_whole_exact(1000);
    lemma_whole_exact(a);
    lemma_whole_exact(a + 1);
    let s = n.size();
    let y = whole(1000);
    assert(y.size() == 1000 * u);
    let c = s * y.size();
    let m = rounded(c, u);
    assert((a * u) * u <= c * 1) by (nonlinear_arith)
        requires
            c == s * (1000 * u),
            a * u <= 1000 * s,
    ;
    assert(c * 1 <= ((a + 1) * u) * u) by (nonlinear_arith)
        requires
            c == s * (1000 * u),
            1000 * s <= (a + 1) * u,
    ;
    lemma_rounded_order(a * u, 1, c, u);
    lemma_rounded_order(c, u, (a + 1) * u, 1);
    let lo = whole(a as int);
    let hi = whole((a + 1) as int);
    assert(lo.magnitude() <= m <= hi.magnitude());
    lemma_between(lo.magnitude(), hi.magnitude(), m);
    let p = product(n, y);
    assert(p == with_sign(n.negative(), m));
    assert(p.magnitude() == m);
}

proof fn lemma_nearest_of(p: Double, a: nat) -> (j: nat)
    requires
        p.finite(),
        a < many(),
        a * one() <= p.size() <= (a + 1) * one(),
    ensures
        a <= j <= a + 1,
        nearest(p) == with_sign(p.negative(), whole(j as int).magnitude()),
        nearest(p).finite(),
        nearest(p).size() == j * one(),
        nearest(p).negative() == p.negative(),
{
    let u = one() as int;
    lemma_pow2_pos(1074);
    let t = p.size() as int;
    let j = (2 * t + u) / (2 * u);
    vstd::arithmetic::div_mod::lemma_fundamental_div_mod(2 * t + u, 2 * u);
    vstd::arithmetic::div_mod::lemma_mod_bound(2 * t + u, 2 * u);
    assert(a <= j <= a + 1) by (nonlinear_arith)
        requires
            (2 * u) * j <= 2 * t + u < (2 * u) * j + 2 * u,
            a * u <= t <= (a + 1) * u,
            u > 0,
    ;
    lemma_whole_exact(j as nat);
    let w = whole(j);
    assert(nearest(p) == with_sign(p.negative(), w.magnitude()));
    assert(nearest(p).magnitude() == w.magnitude());
    j as nat
}

proof fn lemma_thousandth(x: Double, j: nat)
    requires
        x.finite(),
        j <= many(),
        x.size() == j * one(),
    ensures
        quotient(x, whole(1000)) == with_sign(x.negative(), rounded(j * one(), 1000)),
        quotient(x, whole(1000)).finite(),
{
    let u = one();
    lemma_pow2_pos(1074);
    lemma_whole_exact(1000);
    lemma_whole_exact(j);
    let y = whole(1000);
    assert(y.size() == 1000 * u);
    assert(y.magnitude() != 0) by {
        assert(magnitude_units(0) == 0);
    }
    let c = x.size() * u;
    assert(c * 1000 == (j * u) * y.size()) by (nonlinear_arith)
        requires
            c == (j * u) * u,
            y.size() == 1000 * u,
    ;
    lemma_rounded_order(c, y.size(), j * u, 1000);
    lemma_rounded_order(j * u, 1000, c, y.size());
    assert((j * u) * 1 <= (j * u) * 1000);
    lemma_rounded_order(j * u, 1000, j * u, 1);
    assert(whole(j as int).magnitude() == rounded(j * u, 1));
    let q = quotient(x, y);
    assert(q.magnitude() == rounded(j * u, 1000));
}

/// A number that is written with three places is the number nearest to some whole number of
/// thousandths that is no more than one thousandth away from it, and keeps its sign.
pub proof fn lemma_three_places(n: Double) -> (j: nat)
    requires
        n.finite(),
        1000 * n.size() < many() * one(),
    ensures
        three_places(n) == with_sign(n.negative(), rounded(j * one(), 1000)),
        three_places(n).finite(),
        is_writable_num(n),
        j * one() <= 1000 * n.size() + one(),
        1000 * n.size() <= j * one() + one(),
{
    let u = one() as int;
    lemma_pow2_pos(1074);
    let s = 1000 * n.size() as int;
    let a = s / u;
    vstd::arithmetic::div_mod::lemma_fundamental_div_mod(s, u);
    vstd::arithmetic::div_mod::lemma_mod_bound(s, u);
    assert(0 <= a < many() && a * u <= s <= (a + 1) * u) by (nonlinear_arith)
        requires
            u * a <= s < u * a + u,
            0 <= s < many() * u,
            u > 0,
    ;
    lemma_thousandfold(n, a as nat);
    let p = product(n, whole(1000));
    let j = lemma_nearest_of(p, a as nat);
    lemma_thousandth(nearest(p), j);
    assert(j * u <= s + u && s <= j * u + u) by (nonlinear_arith)
        requires
            a <= j <= a + 1,
            a * u <= s <= (a + 1) * u,
            u > 0,
    ;
    j
}

/// A whole number below a thousand millions of millions is written as it is.
pub proof fn lemma_whole_written(k: nat)
    requires
        k < 1_000_000_000_000_000,
    ensures
        num_back(whole(k as int)) == Json::Num(whole(k as int)),
{
    crate::published::lemma_plain_number(k);
    lemma_whole_exact(k);
    lemma_pow2_pos(1074);
    let u = one();
    if whole(k as int).magnitude() == 0 {
        assert(magnitude_units(0) == 0);
        assert(k == 0) by (nonlinear_arith)
            requires
                k * u == 0,
                u > 0,
        ;
    }
}

/// What is no more than one can be written.
pub(crate) proof fn lemma_small_writable(n: Double)
    requires
        n.finite(),
        n.size() <= one(),
    ensures
        is_writable(Json::Num(n)),
{
    lemma_pow2_pos(1074);
    let u = one() as int;
    assert(1000 * n.size() < many() * u) by (nonlinear_arith)
        requires
            n.size() <= u,
            u > 0,
    ;
    let j = lemma_three_places(n);
}

} // verus!
