//! What the rows of the store hold of the cards.

use vstd::prelude::*;
use vstd::arithmetic::power2::lemma_pow2_pos;
use crate::collect::{
    card_count, greatest_of, held_to, is_committed, reading_of, stat_row, total_of, Reading,
};
use crate::counts::{exceeds, lemma_busy_works, lemma_reaches, works};
use crate::double::{
    lemma_magnitude_order, lemma_order, lemma_rounded_order, lemma_whole_exact, less,
    magnitude_units, nearest, no_sum, one, product, quotient, rounded, sum, truncated, whole,
    with_sign, Double, INF,
};
use crate::model::{busy_count, Gpu, Host, Sample};

verus! {

// ---------------------------------------------------------------- numbers held to a range

/// The integer that is nearest to a number that is not negative; the greater of two.
pub open spec fn near(x: Double) -> int {
    ((2 * x.size() + one()) / (2 * one())) as int
}

/// It is no more than a half away.
pub proof fn lemma_near(x: Double)
    ensures
        2 * (near(x) * one()) - one() <= 2 * x.size() < 2 * (near(x) * one()) + one(),
{
    let u = one() as int;
    lemma_pow2_pos(1074);
    let n = near(x);
    vstd::arithmetic::div_mod::lemma_fundamental_div_mod(2 * x.size() + u, 2 * u);
    assert((2 * u) * n == 2 * (n * u)) by (nonlinear_arith);
}

/// What is held of a number, from zero to `hi`.
pub open spec fn within(x: Double, hi: int) -> int {
    if x.nan() || x.negative() {
        0
    } else if x.infinite() || near(x) > hi {
        hi
    } else {
        near(x)
    }
}

/// A number is held as the nearest integer, as far as the range goes.
#[verifier::rlimit(40)]
pub proof fn lemma_held(x: Double, hi: nat)
    requires
        0 < hi < 0x10_0000_0000_0000,
    ensures
        held_to(x, hi as int) == within(x, hi as int),
{
    let u = one() as int;
    lemma_pow2_pos(1074);
    lemma_whole_exact(0);
    lemma_whole_exact(hi);
    let z = whole(0);
    let h = whole(hi as int);
    assert(0 * u == 0) by (nonlinear_arith);
    assert(truncated(z) == 0) by {
        assert(z.size() == 0);
    }
    assert(truncated(h) == hi) by {
        vstd::arithmetic::div_mod::lemma_fundamental_div_mod_converse(
            (hi * u) as int,
            u,
            hi as int,
            0,
        );
    }
    if x.finite() {
        let n = near(x);
        let y = nearest(x);
        assert(n >= 0) by {
            vstd::arithmetic::div_mod::lemma_div_pos_is_pos(2 * x.size() + u, 2 * u);
        }
        if n < 0x20_0000_0000_0000 {
            lemma_whole_exact(n as nat);
            assert(y == with_sign(x.negative(), whole(n).magnitude()));
            assert(y.size() == n * u);
            lemma_order(y, z);
            lemma_order(z, y);
            lemma_order(h, y);
            lemma_order(y, h);
            assert(n * u >= 0) by (nonlinear_arith)
                requires
                    n >= 0,
                    u > 0,
            ;
            if n > hi {
                assert(n * u > hi * u) by (nonlinear_arith)
                    requires
                        n > hi,
                        u > 0,
                ;
            } else {
                assert(n * u <= hi * u) by (nonlinear_arith)
                    requires
                        n <= hi,
                        u > 0,
                ;
            }
            vstd::arithmetic::div_mod::lemma_fundamental_div_mod_converse(n * u, u, n, 0);
            assert(y.size() / one() == n);
            if x.negative() {
                if n > 0 {
                    assert(n * u > 0) by (nonlinear_arith)
                        requires
                            n > 0,
                            u > 0,
                    ;
                }
                assert(held_to(x, hi as int) == 0);
            } else if n > hi {
                assert(held_to(x, hi as int) == hi);
            } else {
                assert(held_to(x, hi as int) == n);
            }
        } else {
            assert(n > hi);
            let k: nat = 0x1f_ffff_ffff_ffff;
            lemma_whole_exact(k);
            let w = whole(k as int);
            assert(n * u * 1 >= k * u * 1) by (nonlinear_arith)
                requires
                    n >= k,
                    u > 0,
            ;
            lemma_rounded_order(k * one(), 1, (n * u) as nat, 1);
            assert(w == with_sign(false, rounded(k * one(), 1)));
            assert(y.magnitude() >= w.magnitude());
            lemma_order(h, w);
            assert(k * u > hi * u) by (nonlinear_arith)
                requires
                    k > hi,
                    u > 0,
            ;
            assert(less(h, w));
            assert(z.rank() == 0) by {
                if z.magnitude() > 0 {
                    lemma_magnitude_order(0, z.magnitude());
                }
            }
            assert(y.magnitude() <= INF);
            if !x.negative() {
                assert(less(h, y));
                assert(held_to(x, hi as int) == hi);
            }
            if x.negative() {
                assert(w.magnitude() > 0) by {
                    assert(magnitude_units(0) == 0);
                    assert(k * u > 0) by (nonlinear_arith)
                        requires
                            k > 0,
                            u > 0,
                    ;
                }
                assert(less(y, z));
            }
        }
    } else if !x.nan() {
        assert(nearest(x) == x);
    }
}

/// A greater number is held as no less.
proof fn lemma_within_order(x: Double, y: Double, hi: int)
    requires
        !less(y, x),
        !x.nan(),
        !y.nan(),
        hi > 0,
    ensures
        within(x, hi) <= within(y, hi),
{
    let u = one() as int;
    lemma_pow2_pos(1074);
    if x.finite() && y.finite() && !x.negative() && !y.negative() {
        lemma_order(y, x);
        vstd::arithmetic::div_mod::lemma_div_is_ordered(
            2 * x.size() + u,
            2 * y.size() + u,
            2 * u,
        );
    }
    if x.finite() && !x.negative() && y.finite() && y.negative() {
        // both are zero
        lemma_order(y, x);
        assert(x.size() == 0 && y.size() == 0);
        assert(u / (2 * u) == 0) by {
            vstd::arithmetic::div_mod::lemma_fundamental_div_mod_converse(u, 2 * u, 0, u);
        }
    }
    if x.finite() && !x.negative() {
        vstd::arithmetic::div_mod::lemma_div_pos_is_pos(2 * x.size() + u, 2 * u);
    }
    if y.finite() && !y.negative() {
        vstd::arithmetic::div_mod::lemma_div_pos_is_pos(2 * y.size() + u, 2 * u);
    }
}

// ---------------------------------------------------------------- sums and peaks over cards

/// What of a card.
pub open spec fn of_power() -> spec_fn(Gpu) -> Option<Double> {
    |g: Gpu| g.power
}

/// What of a card.
pub open spec fn of_power_limit() -> spec_fn(Gpu) -> Option<Double> {
    |g: Gpu| g.power_limit
}

/// What of a card.
pub open spec fn of_util() -> spec_fn(Gpu) -> Option<Double> {
    |g: Gpu| g.util
}

/// What of a card.
pub open spec fn of_mem_used() -> spec_fn(Gpu) -> Option<Double> {
    |g: Gpu| g.mem_used
}

/// What of a card.
pub open spec fn of_mem_total() -> spec_fn(Gpu) -> Option<Double> {
    |g: Gpu| g.mem_total
}

/// What of a card.
pub open spec fn of_temp() -> spec_fn(Gpu) -> Option<Double> {
    |g: Gpu| g.temp
}

spec fn of(f: Reading) -> spec_fn(Gpu) -> Option<Double> {
    match f {
        Reading::Power => of_power(),
        Reading::PowerLimit => of_power_limit(),
        Reading::Util => of_util(),
        Reading::MemUsed => of_mem_used(),
        Reading::MemTotal => of_mem_total(),
        Reading::Temp => of_temp(),
    }
}

/// Adds what a card reports of a quantity.
pub open spec fn add_of(q: spec_fn(Gpu) -> Option<Double>) -> spec_fn(Double, Gpu) -> Double {
    |w: Double, g: Gpu|
        match q(g) {
            Some(x) => sum(w, x),
            None => w,
        }
}

/// The sum of a quantity over the cards that report it, in their order.
pub open spec fn sum_of_cards(gpus: Seq<Gpu>, q: spec_fn(Gpu) -> Option<Double>) -> Double {
    gpus.fold_left(no_sum(), add_of(q))
}

proof fn lemma_total(gpus: Seq<Gpu>, f: Reading, k: int)
    requires
        0 <= k <= gpus.len(),
    ensures
        total_of(gpus, f, k) == sum_of_cards(gpus.take(k), of(f)),
    decreases k,
{
    if k > 0 {
        lemma_total(gpus, f, k - 1);
        assert(gpus.take(k).drop_last() =~= gpus.take(k - 1));
        assert(of(f)(gpus[k - 1]) == reading_of(gpus[k - 1], f));
    } else {
        assert(gpus.take(0).len() == 0);
    }
}

proof fn lemma_greatest(gpus: Seq<Gpu>, f: Reading, k: int)
    requires
        0 <= k <= gpus.len(),
    ensures
        ({
            let t = greatest_of(gpus, f, k);
            &&& !t.nan()
            &&& !less(t, whole(0))
            &&& forall|i: int|
                0 <= i < k && of(f)(#[trigger] gpus[i]) is Some ==> !less(t, of(f)(gpus[i])->0)
            &&& t == whole(0) || exists|i: int|
                0 <= i < k && of(f)(#[trigger] gpus[i]) == Some(t)
        }),
    decreases k,
{
    lemma_whole_exact(0);
    if k > 0 {
        lemma_greatest(gpus, f, k - 1);
        assert(of(f)(gpus[k - 1]) == reading_of(gpus[k - 1], f));
    }
}

/// Whether `m` is the peak of a quantity over cards, held to `hi`: no card that reports it has
/// more, and it is that of one of them, or zero.
pub open spec fn is_peak_of(
    m: int,
    gpus: Seq<Gpu>,
    q: spec_fn(Gpu) -> Option<Double>,
    hi: int,
) -> bool {
    &&& forall|i: int|
        0 <= i < gpus.len() && q(#[trigger] gpus[i]) is Some ==> within(q(gpus[i])->0, hi) <= m
    &&& m == 0 || exists|i: int|
        0 <= i < gpus.len() && q(#[trigger] gpus[i]) is Some && within(q(gpus[i])->0, hi) == m
}

#[verifier::rlimit(40)]
proof fn lemma_peak(gpus: Seq<Gpu>, f: Reading, hi: nat)
    requires
        0 < hi < 0x10_0000_0000_0000,
    ensures
        is_peak_of(
            held_to(greatest_of(gpus, f, gpus.len() as int), hi as int),
            gpus,
            of(f),
            hi as int,
        ),
{
    let k = gpus.len() as int;
    let t = greatest_of(gpus, f, k);
    lemma_greatest(gpus, f, k);
    lemma_held(t, hi);
    lemma_held(whole(0), hi);
    let m = within(t, hi as int);
    assert forall|i: int| 0 <= i < gpus.len() && of(f)(#[trigger] gpus[i]) is Some implies within(
        of(f)(gpus[i])->0,
        hi as int,
    ) <= m by {
        let x = of(f)(gpus[i])->0;
        if !x.nan() {
            lemma_within_order(x, t, hi as int);
        } else if !t.negative() && t.finite() {
            lemma_pow2_pos(1074);
            vstd::arithmetic::div_mod::lemma_div_pos_is_pos(
                (2 * t.size() + one()) as int,
                2 * one() as int,
            );
        }
    }
    if t == whole(0) {
        lemma_whole_exact(0);
        lemma_pow2_pos(1074);
        let u = one() as int;
        assert(0 * u == 0) by (nonlinear_arith);
        assert(u / (2 * u) == 0) by {
            vstd::arithmetic::div_mod::lemma_fundamental_div_mod_converse(u, 2 * u, 0, u);
        }
        assert(m == 0);
    } else {
        let i = choose|i: int| 0 <= i < k && of(f)(#[trigger] gpus[i]) == Some(t);
        assert(within(of(f)(gpus[i])->0, hi as int) == m);
    }
}

/// The law of the peaks of a row: the hottest card and the one that is used most.
#[verifier::rlimit(60)]
pub proof fn lemma_row_peaks(gpus: Seq<Gpu>, ts: u32)
    ensures
        is_peak_of(stat_row(gpus, ts).temp_max as int, gpus, of_temp(), 255),
        is_peak_of(stat_row(gpus, ts).util_max as int, gpus, of_util(), 100),
{
    lemma_peak(gpus, Reading::Temp, 255);
    lemma_peak(gpus, Reading::Util, 100);
    let k = gpus.len() as int;
    lemma_held(greatest_of(gpus, Reading::Temp, k), 255);
    lemma_held(greatest_of(gpus, Reading::Util, k), 100);
    lemma_within_range(greatest_of(gpus, Reading::Temp, k), 255);
    lemma_within_range(greatest_of(gpus, Reading::Util, k), 100);
}

proof fn lemma_within_range(x: Double, hi: int)
    requires
        hi > 0,
    ensures
        0 <= within(x, hi) <= hi,
{
    if x.finite() {
        lemma_pow2_pos(1074);
        vstd::arithmetic::div_mod::lemma_div_pos_is_pos((2 * x.size() + one()) as int, 2 * one() as int);
    }
}

/// The law of the sums of a row: what the cards draw and may draw together, the mean of their use
/// over all of them, and the share of all their memory that is in use.
pub proof fn lemma_row_sums(gpus: Seq<Gpu>, ts: u32)
    requires
        gpus.len() <= u32::MAX,
    ensures
        stat_row(gpus, ts).ts == ts,
        stat_row(gpus, ts).watts == within(sum_of_cards(gpus, of_power()), 65_535),
        stat_row(gpus, ts).watt_cap == within(sum_of_cards(gpus, of_power_limit()), 65_535),
        stat_row(gpus, ts).util_avg == within(
            quotient(sum_of_cards(gpus, of_util()), whole(gpus.len() as int)),
            100,
        ),
        stat_row(gpus, ts).mem_pct == if exceeds(sum_of_cards(gpus, of_mem_total()), 0) {
            within(
                product(
                    quotient(
                        sum_of_cards(gpus, of_mem_used()),
                        sum_of_cards(gpus, of_mem_total()),
                    ),
                    whole(1000),
                ),
                1000,
            )
        } else {
            0
        },
{
    let k = gpus.len() as int;
    assert(gpus.take(k) =~= gpus);
    lemma_total(gpus, Reading::Power, k);
    lemma_total(gpus, Reading::PowerLimit, k);
    lemma_total(gpus, Reading::Util, k);
    lemma_total(gpus, Reading::MemUsed, k);
    lemma_total(gpus, Reading::MemTotal, k);
    let w = sum_of_cards(gpus, of_power());
    let c = sum_of_cards(gpus, of_power_limit());
    let a = quotient(sum_of_cards(gpus, of_util()), whole(k));
    let m = product(
        quotient(sum_of_cards(gpus, of_mem_used()), sum_of_cards(gpus, of_mem_total())),
        whole(1000),
    );
    lemma_held(w, 65_535);
    lemma_held(c, 65_535);
    lemma_held(a, 100);
    lemma_held(m, 1000);
    lemma_within_range(w, 65_535);
    lemma_within_range(c, 65_535);
    lemma_within_range(a, 100);
    lemma_within_range(m, 1000);
    lemma_reaches(sum_of_cards(gpus, of_mem_total()), 0);
}

/// Those cards that work.
pub open spec fn that_work() -> spec_fn(Gpu) -> bool {
    |g: Gpu| works(g)
}

pub proof fn lemma_busy_filter(gpus: Seq<Gpu>, k: int)
    requires
        0 <= k <= gpus.len(),
    ensures
        busy_count(gpus, k) == gpus.take(k).filter(that_work()).len(),
    decreases k,
{
    reveal(Seq::filter);
    if k > 0 {
        lemma_busy_filter(gpus, k - 1);
        lemma_busy_works(gpus[k - 1]);
        assert(gpus.take(k).drop_last() =~= gpus.take(k - 1));
    } else {
        assert(gpus.take(0).len() == 0);
    }
}

/// The law of the counts of a row: how many cards there are and how many of them work, as far as
/// a byte goes.
#[verifier::rlimit(40)]
pub proof fn lemma_row_counts(gpus: Seq<Gpu>, ts: u32)
    requires
        gpus.len() <= u32::MAX,
    ensures
        gpus.len() <= 255 ==> stat_row(gpus, ts).gpus == gpus.len() && stat_row(gpus, ts).busy
            == gpus.filter(that_work()).len(),
        gpus.len() > 255 ==> stat_row(gpus, ts).gpus == 255,
        gpus.filter(that_work()).len() > 255 ==> stat_row(gpus, ts).busy == 255,
        stat_row(gpus, ts).busy <= stat_row(gpus, ts).gpus,
{
    let k = gpus.len() as int;
    assert(gpus.take(k) =~= gpus);
    lemma_busy_filter(gpus, k);
    gpus.lemma_filter_len(that_work());
    lemma_row_bytes(gpus, ts);
}

#[verifier::rlimit(60)]
proof fn lemma_row_bytes(gpus: Seq<Gpu>, ts: u32)
    requires
        gpus.len() <= u32::MAX,
    ensures
        ({
            let n = gpus.len() as int;
            let busy = busy_count(gpus, n) as int;
            &&& n <= 255 ==> stat_row(gpus, ts).gpus == n
            &&& n > 255 ==> stat_row(gpus, ts).gpus == 255
            &&& busy <= 255 ==> stat_row(gpus, ts).busy == busy
            &&& busy > 255 ==> stat_row(gpus, ts).busy == 255
        }),
{
    assert(card_count(gpus) == gpus.len());
}

/// The power of a sample is the sum over the cards that report theirs, and there is none just
/// where no card does.
pub proof fn lemma_sample_watts(
    d: Sample,
    gpus: Seq<Gpu>,
    host: Option<Host>,
    prev: Option<Sample>,
    history: Seq<Double>,
    ts: u64,
)
    requires
        is_committed(d, gpus, host, prev, history, ts),
    ensures
        d.watts is Some <==> exists|i: int| 0 <= i < gpus.len() && (#[trigger] gpus[i]).power is Some,
        d.watts matches Some(w) ==> w == sum_of_cards(gpus, of_power()),
{
    let k = gpus.len() as int;
    assert(gpus.take(k) =~= gpus);
    lemma_total(gpus, Reading::Power, k);
}

} // verus!
