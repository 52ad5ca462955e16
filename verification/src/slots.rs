//! What a slot of the statistics holds of the rows that fall in it.

use vstd::prelude::*;
use crate::db::{
    byte, field, in_slot, lemma_slot_max, record, slot_count, slot_max, slot_row, slot_sum, Field,
    Row,
};
use crate::stats::{start_of, step_of};

verus! {

/// Those rows that were taken from one time up to another.
pub open spec fn taken_in(lo: int, hi: int) -> spec_fn(Row) -> bool {
    |r: Row| lo <= r.ts < hi
}

/// Adds a quantity of a row.
pub open spec fn add_to(q: spec_fn(Row) -> nat) -> spec_fn(nat, Row) -> nat {
    |a: nat, r: Row| a + q(r)
}

/// The sum of a quantity over rows.
pub open spec fn sum_of_rows(rows: Seq<Row>, q: spec_fn(Row) -> nat) -> nat {
    rows.fold_left(0, add_to(q))
}

/// What of a row.
pub open spec fn of_watts() -> spec_fn(Row) -> nat {
    |r: Row| r.watts as nat
}

/// What of a row.
pub open spec fn of_util_avg() -> spec_fn(Row) -> nat {
    |r: Row| r.util_avg as nat
}

/// What of a row.
pub open spec fn of_busy() -> spec_fn(Row) -> nat {
    |r: Row| r.busy as nat
}

/// What of a row.
pub open spec fn of_mem_pct() -> spec_fn(Row) -> nat {
    |r: Row| r.mem_pct as nat
}

/// What of a row.
pub open spec fn of_watt_cap() -> spec_fn(Row) -> nat {
    |r: Row| r.watt_cap as nat
}

/// What of a row.
pub open spec fn of_util_max() -> spec_fn(Row) -> nat {
    |r: Row| r.util_max as nat
}

/// What of a row.
pub open spec fn of_temp_max() -> spec_fn(Row) -> nat {
    |r: Row| r.temp_max as nat
}

/// What of a row.
pub open spec fn of_gpus() -> spec_fn(Row) -> nat {
    |r: Row| r.gpus as nat
}

spec fn of(f: Field) -> spec_fn(Row) -> nat {
    match f {
        Field::Watts => of_watts(),
        Field::WattCap => of_watt_cap(),
        Field::UtilAvg => of_util_avg(),
        Field::UtilMax => of_util_max(),
        Field::TempMax => of_temp_max(),
        Field::Gpus => of_gpus(),
        Field::Busy => of_busy(),
        Field::MemPct => of_mem_pct(),
    }
}

proof fn lemma_of(r: Row, f: Field)
    ensures
        of(f)(r) == field(r, f),
{
}

proof fn lemma_in_slot(r: Row, from: u32, step: u32, i: int)
    requires
        step > 0,
        i >= 0,
    ensures
        in_slot(r, from, step, i) == (from + i * step <= r.ts < from + i * step + step),
{
    let d = r.ts - from;
    let s = step as int;
    if r.ts >= from {
        vstd::arithmetic::div_mod::lemma_fundamental_div_mod(d, s);
        vstd::arithmetic::mul::lemma_mul_is_commutative(s, d / s);
        if from + i * step <= r.ts < from + i * step + step {
            vstd::arithmetic::div_mod::lemma_fundamental_div_mod_converse(d, s, i, d - i * s);
        }
    } else {
        assert(i * s >= 0) by (nonlinear_arith)
            requires
                i >= 0,
                s > 0,
        ;
    }
}

proof fn lemma_slot_sum(rows: Seq<Row>, from: u32, step: u32, i: int, k: int, f: Field)
    requires
        step > 0,
        i >= 0,
        0 <= k <= rows.len(),
    ensures
        ({
            let lo = from + i * step;
            let there = rows.take(k).filter(taken_in(lo, lo + step));
            &&& slot_count(rows, from, step, i, k) == there.len()
            &&& slot_sum(rows, from, step, i, k, f) == sum_of_rows(there, of(f))
        }),
    decreases k,
{
    reveal(Seq::filter);
    let lo = from + i * step;
    let p = taken_in(lo, lo + step);
    let there = rows.take(k).filter(p);
    if k > 0 {
        lemma_slot_sum(rows, from, step, i, k - 1, f);
        lemma_in_slot(rows[k - 1], from, step, i);
        lemma_of(rows[k - 1], f);
        assert(rows.take(k).drop_last() =~= rows.take(k - 1));
        let before = rows.take(k - 1).filter(p);
        if in_slot(rows[k - 1], from, step, i) {
            assert(there == before.push(rows[k - 1]));
            assert(there.drop_last() =~= before);
        } else {
            assert(there == before);
        }
    } else {
        assert(rows.take(0).len() == 0);
        assert(there.len() == 0);
    }
}

proof fn lemma_sum_bound(rows: Seq<Row>, q: spec_fn(Row) -> nat, m: nat)
    requires
        forall|r: Row| #[trigger] q(r) <= m,
    ensures
        sum_of_rows(rows, q) <= rows.len() * m,
    decreases rows.len(),
{
    if rows.len() > 0 {
        lemma_sum_bound(rows.drop_last(), q, m);
        let n = rows.len() as int;
        assert(n * m == (n - 1) * m + m) by (nonlinear_arith);
    } else {
        assert(0 * m == 0);
    }
}

proof fn lemma_mean_fits(s: nat, c: nat, m: nat)
    requires
        c > 0,
        s <= c * m,
    ensures
        s / c <= m,
        (s + c / 2) / c <= m,
{
    let q = s / c;
    vstd::arithmetic::div_mod::lemma_fundamental_div_mod(s as int, c as int);
    vstd::arithmetic::div_mod::lemma_fundamental_div_mod((s + c / 2) as int, c as int);
    let r = (s + c / 2) / c;
    if q > m {
        assert(c * q >= c * (m + 1)) by (nonlinear_arith)
            requires
                q >= m + 1,
                c > 0,
        ;
        assert(c * (m + 1) == c * m + c) by (nonlinear_arith);
    }
    if r > m {
        assert(c * r >= c * (m + 1)) by (nonlinear_arith)
            requires
                r >= m + 1,
                c > 0,
        ;
        assert(c * (m + 1) == c * m + c) by (nonlinear_arith);
    }
}

/// Whether `v` is the mean of numbers with the sum `s`, rounded down.
pub open spec fn is_mean(v: int, s: nat, c: nat) -> bool {
    v * c <= s < v * c + c
}

/// Whether `v` is the mean of numbers with the sum `s`, rounded to the nearest.
pub open spec fn is_near_mean(v: int, s: nat, c: nat) -> bool {
    2 * (v * c) <= 2 * s + c && 2 * s < 2 * (v * c) + c + 1
}

/// Whether `v` is the largest of a quantity over rows.
pub open spec fn is_most(v: int, rows: Seq<Row>, q: spec_fn(Row) -> nat) -> bool {
    &&& forall|j: int| 0 <= j < rows.len() ==> q(#[trigger] rows[j]) <= v
    &&& exists|j: int| 0 <= j < rows.len() && q(#[trigger] rows[j]) == v
}

proof fn lemma_is_mean(s: nat, c: nat)
    requires
        c > 0,
    ensures
        is_mean((s / c) as int, s, c),
        is_near_mean(((s + c / 2) / c) as int, s, c),
{
    let q = (s / c) as int;
    let r = ((s + c / 2) / c) as int;
    vstd::arithmetic::div_mod::lemma_fundamental_div_mod(s as int, c as int);
    vstd::arithmetic::div_mod::lemma_fundamental_div_mod((s + c / 2) as int, c as int);
    vstd::arithmetic::mul::lemma_mul_is_commutative(c as int, q);
    vstd::arithmetic::mul::lemma_mul_is_commutative(c as int, r);
}

proof fn lemma_most_in(rows: Seq<Row>, from: u32, step: u32, i: int, f: Field)
    requires
        step > 0,
        i >= 0,
        rows.filter(taken_in(from + i * step, from + i * step + step)).len() > 0,
    ensures
        is_most(
            slot_max(rows, from, step, i, rows.len() as int, f) as int,
            rows.filter(taken_in(from + i * step, from + i * step + step)),
            of(f),
        ),
{
    let k = rows.len() as int;
    let lo = from + i * step;
    let p = taken_in(lo, lo + step);
    let there = rows.filter(p);
    let v = slot_max(rows, from, step, i, k, f) as int;
    assert(rows.take(k) =~= rows);
    lemma_slot_sum(rows, from, step, i, k, f);
    lemma_slot_max(rows, from, step, i, k, f);
    rows.filter_lemma(p);
    assert forall|j: int| 0 <= j < there.len() implies of(f)(#[trigger] there[j]) <= v by {
        lemma_filtered(rows, p, j);
        let a = choose|a: int| 0 <= a < rows.len() && #[trigger] rows[a] == there[j];
        assert(p(there[j]));
        lemma_in_slot(rows[a], from, step, i);
        lemma_of(rows[a], f);
    }
    let a = choose|a: int|
        0 <= a < k && in_slot(#[trigger] rows[a], from, step, i) && field(rows[a], f) == v;
    lemma_in_slot(rows[a], from, step, i);
    lemma_of(rows[a], f);
    assert(p(rows[a]));
    assert(there.contains(rows[a]));
    let j = choose|j: int| 0 <= j < there.len() && there[j] == rows[a];
    assert(of(f)(there[j]) == v);
}

proof fn lemma_filtered(a: Seq<Row>, p: spec_fn(Row) -> bool, i: int)
    requires
        0 <= i < a.filter(p).len(),
    ensures
        exists|j: int| 0 <= j < a.len() && #[trigger] a[j] == a.filter(p)[i],
    decreases a.len(),
{
    reveal(Seq::filter);
    let init = a.drop_last();
    if i < init.filter(p).len() {
        lemma_filtered(init, p, i);
        let j = choose|j: int| 0 <= j < init.len() && #[trigger] init[j] == init.filter(p)[i];
        assert(a[j] == init[j]);
    } else {
        assert(a[a.len() - 1] == a.filter(p)[i]);
    }
}

/// The law of a slot. It goes by the rows that were taken within it: the means of what is
/// averaged, the largest of what is a peak, and zeros where there is no such row.
#[verifier::rlimit(40)]
pub proof fn lemma_slot(rows: Seq<Row>, from: u32, step: u32, i: int)
    requires
        step > 0,
        i >= 0,
        from + i * step <= u32::MAX,
    ensures
        ({
            let lo = from + i * step;
            let there = rows.filter(taken_in(lo, lo + step));
            let c = there.len();
            let r = slot_row(rows, from, step, i);
            &&& r.ts == lo
            &&& c == 0 ==> r.watts == 0 && r.watt_cap == 0 && r.util_avg == 0 && r.util_max == 0
                && r.temp_max == 0 && r.gpus == 0 && r.busy == 0 && r.mem_pct == 0
            &&& c > 0 ==> {
                &&& is_mean(r.watts as int, sum_of_rows(there, of_watts()), c)
                &&& is_mean(r.util_avg as int, sum_of_rows(there, of_util_avg()), c)
                &&& is_mean(r.mem_pct as int, sum_of_rows(there, of_mem_pct()), c)
                &&& is_near_mean(r.busy as int, sum_of_rows(there, of_busy()), c)
                &&& is_most(r.watt_cap as int, there, of_watt_cap())
                &&& is_most(r.util_max as int, there, of_util_max())
                &&& is_most(r.temp_max as int, there, of_temp_max())
                &&& is_most(r.gpus as int, there, of_gpus())
            }
        }),
{
    let k = rows.len() as int;
    let lo = from + i * step;
    let there = rows.filter(taken_in(lo, lo + step));
    let c = there.len();
    assert(rows.take(k) =~= rows);
    lemma_slot_sum(rows, from, step, i, k, Field::Watts);
    assert(i * step >= 0) by (nonlinear_arith)
        requires
            i >= 0,
            step > 0,
    ;
    if c > 0 {
        lemma_slot_sum(rows, from, step, i, k, Field::UtilAvg);
        lemma_slot_sum(rows, from, step, i, k, Field::Busy);
        lemma_slot_sum(rows, from, step, i, k, Field::MemPct);
        lemma_sum_bound(there, of_watts(), 65_535);
        lemma_sum_bound(there, of_util_avg(), 255);
        lemma_sum_bound(there, of_busy(), 255);
        lemma_sum_bound(there, of_mem_pct(), 65_535);
        lemma_mean_fits(sum_of_rows(there, of_watts()), c, 65_535);
        lemma_mean_fits(sum_of_rows(there, of_util_avg()), c, 255);
        lemma_mean_fits(sum_of_rows(there, of_busy()), c, 255);
        lemma_mean_fits(sum_of_rows(there, of_mem_pct()), c, 65_535);
        lemma_is_mean(sum_of_rows(there, of_watts()), c);
        lemma_is_mean(sum_of_rows(there, of_util_avg()), c);
        lemma_is_mean(sum_of_rows(there, of_busy()), c);
        lemma_is_mean(sum_of_rows(there, of_mem_pct()), c);
        lemma_most_in(rows, from, step, i, Field::WattCap);
        lemma_most_in(rows, from, step, i, Field::UtilMax);
        lemma_most_in(rows, from, step, i, Field::TempMax);
        lemma_most_in(rows, from, step, i, Field::Gpus);
        assert(slot_max(rows, from, step, i, k, Field::WattCap) <= 65_535);
        assert(slot_max(rows, from, step, i, k, Field::UtilMax) <= 255);
        assert(slot_max(rows, from, step, i, k, Field::TempMax) <= 255);
        assert(slot_max(rows, from, step, i, k, Field::Gpus) <= 255);
    }
}

// ---------------------------------------------------------------- where slots lie

/// The law of a range: its slots are equally long, and together no longer than the range but for
/// the least length of a second each; the range ends now, and the first slot starts less than a
/// slot before it.
pub proof fn lemma_range_slots(span: u32, slots: usize, now: u32)
    requires
        0 < slots <= u32::MAX,
        slots <= span <= now,
    ensures
        step_of(span, slots) * slots <= span < step_of(span, slots) * slots + slots,
        start_of(span, slots, now) <= now - span < start_of(span, slots, now) + step_of(
            span,
            slots,
        ),
{
    let d = slots as int;
    let s = span as int / d;
    vstd::arithmetic::div_mod::lemma_fundamental_div_mod(span as int, d);
    vstd::arithmetic::mul::lemma_mul_is_commutative(d, s);
    assert(s >= 1) by (nonlinear_arith)
        requires
            s * d + d > span,
            span >= d,
            d > 0,
    ;
    assert(s <= span) by (nonlinear_arith)
        requires
            s * d <= span,
            s >= 0,
            d >= 1,
    ;
    crate::stats::lemma_grid_snaps(span, slots, now);
}

// ---------------------------------------------------------------- the layout of a record

/// The law of the layout of a record: sixteen bytes, the lowest byte of a number first; the time
/// at 0, the power at 4, its limit at 6, the mean use at 8, its peak at 9, the highest
/// temperature at 10, the cards at 11, the busy ones at 12, the memory at 14.
pub proof fn lemma_record_layout(r: Row)
    ensures
        record(r).len() == 16,
        record(r)[0] + 0x100 * record(r)[1] + 0x1_0000 * record(r)[2] + 0x100_0000 * record(r)[3]
            == r.ts,
        record(r)[4] + 0x100 * record(r)[5] == r.watts,
        record(r)[6] + 0x100 * record(r)[7] == r.watt_cap,
        record(r)[8] == r.util_avg,
        record(r)[9] == r.util_max,
        record(r)[10] == r.temp_max,
        record(r)[11] == r.gpus,
        record(r)[12] == r.busy,
        record(r)[13] == 0,
        record(r)[14] + 0x100 * record(r)[15] == r.mem_pct,
{
    reveal_with_fuel(byte, 5);
    let n = r.ts as nat;
    assert(byte(n, 1) == n / 256 % 256);
    assert(byte(n, 2) == n / 256 / 256 % 256);
    assert(byte(n, 3) == n / 256 / 256 / 256 % 256);
}

} // verus!
