//! IEEE 754 binary64 numbers, computed on their bits.
//!
//! Every finite number is a whole multiple of two to the power -1074. `units` counts in
//! that multiple, so that the exact value of every number is an integer, and every
//! operation is "compute exactly, then round once to the nearest number, ties to even".

use vstd::prelude::*;
use vstd::arithmetic::div_mod::{lemma_fundamental_div_mod, lemma_fundamental_div_mod_converse};
use vstd::arithmetic::mul::{
    lemma_mul_inequality, lemma_mul_is_associative, lemma_mul_is_commutative,
};
use vstd::arithmetic::power2::{
    lemma2_to64, lemma2_to64_rest, lemma_pow2_adds, lemma_pow2_pos, lemma_pow2_strictly_increases,
    pow2,
};
use crate::natural::{weight, Nat};

verus! {

/// The sign bit.
pub const SIGN: u64 = 0x8000_0000_0000_0000;

/// The weight of the exponent field.
pub const STEP: u64 = 0x0010_0000_0000_0000;

/// The magnitude of infinity. Greater magnitudes are not numbers.
pub const INF: u64 = 0x7ff0_0000_0000_0000;

/// The magnitude of what is not a number.
pub const NAN: u64 = 0x7ff8_0000_0000_0000;

/// A number, by the bits of its IEEE 754 binary64 representation.
#[derive(Clone, Copy, Debug, PartialEq, Eq, Structural)]
pub struct Double {
    pub bits: u64,
}

/// The value of the magnitude `m`, in units.
pub open spec fn magnitude_units(m: nat) -> nat {
    if m < STEP {
        m
    } else {
        (STEP + m % STEP as nat) as nat * pow2((m / STEP as nat - 1) as nat)
    }
}

impl Double {
    /// Whether the sign is negative.
    pub open spec fn negative(self) -> bool {
        self.bits >= SIGN
    }

    /// The bits without the sign.
    pub open spec fn magnitude(self) -> nat {
        if self.bits >= SIGN {
            (self.bits - SIGN) as nat
        } else {
            self.bits as nat
        }
    }

    pub open spec fn finite(self) -> bool {
        self.magnitude() < INF
    }

    pub open spec fn infinite(self) -> bool {
        self.magnitude() == INF
    }

    pub open spec fn nan(self) -> bool {
        self.magnitude() > INF
    }

    /// The exact value without the sign, in units.
    pub open spec fn size(self) -> nat {
        magnitude_units(self.magnitude())
    }

    /// The exact value, in units.
    pub open spec fn units(self) -> int {
        if self.negative() {
            -(self.size() as int)
        } else {
            self.size() as int
        }
    }

    /// The place in the order of numbers: the magnitude with the sign.
    pub open spec fn rank(self) -> int {
        if self.negative() {
            -(self.magnitude() as int)
        } else {
            self.magnitude() as int
        }
    }
}

/// How many units make one.
pub open spec fn one() -> nat {
    pow2(1074)
}

/// The number of the given sign and magnitude.
pub open spec fn with_sign(negative: bool, magnitude: nat) -> Double {
    Double { bits: if negative { (SIGN + magnitude) as u64 } else { magnitude as u64 } }
}

/// What is not a number.
pub open spec fn not_a_number() -> Double {
    with_sign(false, NAN as nat)
}

// ---------------------------------------------------------------- rounding

/// `n / d`, rounded to the nearest integer, ties to even.
pub open spec fn half_even(n: nat, d: nat) -> nat {
    let q = n / d;
    let r = n % d;
    if 2 * r < d || (2 * r == d && q % 2 == 0) {
        q
    } else {
        q + 1
    }
}

/// Whether `q` is the least exponent at which `n / d` needs no more than 53 bits.
pub open spec fn is_scale(n: nat, d: nat, q: nat) -> bool {
    &&& n < d * pow2(53 + q)
    &&& q == 0 || d * pow2((52 + q) as nat) <= n
}

pub open spec fn scale(n: nat, d: nat) -> nat {
    choose|q: nat| is_scale(n, d, q)
}

/// The magnitude nearest to `n / d` units, ties to even.
pub open spec fn rounded(n: nat, d: nat) -> nat {
    let q = scale(n, d);
    let m = q * STEP as nat + half_even(n, d * pow2(q));
    if m < INF {
        m
    } else {
        INF as nat
    }
}

proof fn lemma_scale_unique(n: nat, d: nat, p: nat, q: nat)
    requires
        d > 0,
        is_scale(n, d, p),
        is_scale(n, d, q),
    ensures
        p == q,
{
    if p < q {
        lemma_scale_order(n, d, p, q);
    }
    if q < p {
        lemma_scale_order(n, d, q, p);
    }
}

proof fn lemma_scale_order(n: nat, d: nat, p: nat, q: nat)
    requires
        d > 0,
        n < d * pow2(53 + p),
        p < q,
    ensures
        n < d * pow2((52 + q) as nat),
{
    if 53 + p < 52 + q {
        lemma_pow2_strictly_increases(53 + p, (52 + q) as nat);
    }
    lemma_mul_inequality(pow2(53 + p) as int, pow2((52 + q) as nat) as int, d as int);
    lemma_mul_is_commutative(pow2(53 + p) as int, d as int);
    lemma_mul_is_commutative(pow2((52 + q) as nat) as int, d as int);
}

proof fn lemma_scale_exists_from(n: nat, d: nat, q: nat)
    requires
        d > 0,
        q == 0 || d * pow2((52 + q) as nat) <= n,
    ensures
        exists|s: nat| is_scale(n, d, s) && s >= q,
    decreases n - q,
{
    if n < d * pow2(53 + q) {
        assert(is_scale(n, d, q));
    } else {
        lemma_pow2_exceeds(53 + q);
        assert(d * pow2(53 + q) >= pow2(53 + q)) by (nonlinear_arith)
            requires
                d >= 1,
        ;
        lemma_scale_exists_from(n, d, q + 1);
    }
}

proof fn lemma_pow2_exceeds(q: nat)
    ensures
        pow2(q) > q,
    decreases q,
{
    lemma2_to64();
    if q > 0 {
        lemma_pow2_exceeds((q - 1) as nat);
        lemma_pow2_adds(1, (q - 1) as nat);
    }
}

/// The scale exists, and is the only one.
pub proof fn lemma_scale(n: nat, d: nat)
    requires
        d > 0,
    ensures
        is_scale(n, d, scale(n, d)),
{
    lemma_scale_exists_from(n, d, 0);
}

pub proof fn lemma_scale_is(n: nat, d: nat, q: nat)
    requires
        d > 0,
        is_scale(n, d, q),
    ensures
        scale(n, d) == q,
{
    lemma_scale(n, d);
    lemma_scale_unique(n, d, scale(n, d), q);
}

/// From `d * 2^(53+q) <= n` the scale is greater than `q`.
proof fn lemma_scale_above(n: nat, d: nat, q: nat)
    requires
        d > 0,
        d * pow2(53 + q) <= n,
    ensures
        scale(n, d) > q,
{
    lemma_scale(n, d);
    let s = scale(n, d);
    if s <= q {
        if s < q {
            lemma_pow2_strictly_increases(53 + s, 53 + q);
        }
        lemma_mul_inequality(pow2(53 + s) as int, pow2(53 + q) as int, d as int);
        lemma_mul_is_commutative(pow2(53 + s) as int, d as int);
        lemma_mul_is_commutative(pow2(53 + q) as int, d as int);
    }
}

// ---------------------------------------------------------------- taking apart

impl Double {
    /// Whether the sign is negative.
    pub fn is_negative(self) -> (r: bool)
        ensures
            r == self.negative(),
    {
        self.bits >= SIGN
    }

    /// The bits without the sign.
    pub fn magnitude_bits(self) -> (r: u64)
        ensures
            r == self.magnitude(),
            r < SIGN,
    {
        if self.bits >= SIGN {
            self.bits - SIGN
        } else {
            self.bits
        }
    }

    /// Whether this is neither infinite nor what is not a number.
    pub fn is_finite(self) -> (r: bool)
        ensures
            r == self.finite(),
    {
        self.magnitude_bits() < INF
    }

    pub fn is_nan(self) -> (r: bool)
        ensures
            r == self.nan(),
    {
        self.magnitude_bits() > INF
    }

    pub fn is_infinite(self) -> (r: bool)
        ensures
            r == self.infinite(),
    {
        self.magnitude_bits() == INF
    }

    /// The significand and the exponent of two: the size is `r.0 * 2^r.1` units.
    pub fn parts(self) -> (r: (u64, u32))
        requires
            self.finite(),
        ensures
            r.0 < 2 * STEP,
            r.1 <= 2045,
            r.1 == 0 || r.0 >= STEP,
            self.size() == r.0 * pow2(r.1 as nat),
            self.magnitude() == r.1 * STEP + r.0,
    {
        let m: u64 = self.magnitude_bits();
        if m < STEP {
            proof {
                lemma2_to64();
            }
            (m, 0)
        } else {
            let e: u32 = (m / STEP - 1) as u32;
            (STEP + m % STEP, e)
        }
    }

    /// The size as a natural number.
    pub fn size_nat(self) -> (r: Nat)
        requires
            self.finite(),
        ensures
            r@ == self.size(),
    {
        let (m, e) = self.parts();
        let mut r = Nat::from_u64(m);
        r.shift(e);
        r
    }
}

/// The number of the given sign and magnitude.
pub fn assemble(negative: bool, magnitude: u64) -> (r: Double)
    requires
        magnitude < SIGN,
    ensures
        r == with_sign(negative, magnitude as nat),
{
    if negative {
        Double { bits: SIGN + magnitude }
    } else {
        Double { bits: magnitude }
    }
}

/// The remainder of a division of powers of two.
proof fn lemma_quotient(n: nat, e: nat, dd: nat, f: nat, r: nat)
    requires
        n * pow2(e) == f * (dd * pow2(e)) + r,
        r < dd * pow2(e),
        dd > 0,
    ensures
        n / dd == f,
        (n % dd) * pow2(e) == r,
{
    lemma_pow2_pos(e);
    let p = pow2(e) as int;
    let rem = n - f * dd;
    assert(rem * p == r) by (nonlinear_arith)
        requires
            n * p == f * (dd * p) + r,
            rem == n - f * dd,
    ;
    assert(rem >= 0) by (nonlinear_arith)
        requires
            rem * p == r,
            r >= 0,
            p > 0,
    ;
    assert(rem < dd) by (nonlinear_arith)
        requires
            rem * p == r,
            r < dd * p,
            p > 0,
    ;
    lemma_fundamental_div_mod_converse(n as int, dd as int, f as int, rem);
}

/// An exponent from which the search for the scale can start.
fn start_scale(n: &Nat, d: &Nat) -> (q: u32)
    requires
        d@ > 0,
    ensures
        q <= 2047,
        q == 0 || d@ * pow2((52 + q) as nat) <= n@,
{
    let a: usize = n.limbs.len();
    let b: usize = d.limbs.len();
    if a < 3 || a - 3 < b || n.limbs[a - 1] == 0 {
        return 0;
    }
    let mut k: usize = a - 1 - b;
    if k > 65 {
        k = 65;
    }
    let q: u32 = 32 * (k as u32) - 52;
    proof {
        crate::natural::lemma_low_bounds(n.limbs@, (a - 1) as nat);
        crate::natural::lemma_low_bounds(d.limbs@, b as nat);
        let x = n.limbs@[a - 1] as int;
        let w = weight((a - 1) as nat) as int;
        assert(x * w >= w) by (nonlinear_arith)
            requires
                x >= 1,
                w >= 0,
        ;
        lemma_pow2_adds(32 * b as nat, (52 + q) as nat);
        let e = (32 * b + 52 + q) as nat;
        if e < 32 * (a - 1) {
            lemma_pow2_strictly_increases(e, (32 * (a - 1)) as nat);
        }
        lemma_mul_inequality(d@ as int, weight(b as nat) as int, pow2((52 + q) as nat) as int);
    }
    q
}

/// The number of the given sign nearest to `n / d` units.
pub fn round_ratio(negative: bool, n: &Nat, d: &Nat) -> (r: Double)
    requires
        d@ > 0,
    ensures
        r == with_sign(negative, rounded(n@, d@)),
{
    let mut q: u32 = start_scale(n, d);
    let mut top = d.copy();
    top.shift(53 + q);
    // `top` is the least value too large for 53 bits at exponent `q`.
    while !n.less(&top)
        invariant
            d@ > 0,
            q <= 2047,
            top@ == d@ * pow2((53 + q) as nat),
            q == 0 || d@ * pow2((52 + q) as nat) <= n@,
        decreases 2048 - q,
    {
        if q >= 2047 {
            proof {
                lemma_scale_above(n@, d@, q as nat);
                let s = scale(n@, d@);
                assert(s * STEP >= 2047 * STEP) by (nonlinear_arith)
                    requires
                        s >= 2047,
                ;
            }
            return assemble(negative, INF);
        }
        proof {
            lemma2_to64();
            lemma_pow2_adds(1, (53 + q) as nat);
            let p = pow2((53 + q) as nat) as int;
            assert((d@ * p) * 2 == d@ * (2 * p)) by (nonlinear_arith);
        }
        top.mul_add(2, 0);
        q = q + 1;
    }
    proof {
        assert(is_scale(n@, d@, q as nat));
        lemma_scale_is(n@, d@, q as nat);
    }
    let ghost dd = d@ * pow2(q as nat);
    proof {
        lemma_pow2_adds(q as nat, 53);
        lemma_mul_is_associative(d@ as int, pow2(q as nat) as int, pow2(53) as int);
        assert(top@ == dd * pow2(53));
        lemma_pow2_pos(q as nat);
        assert(dd > 0) by (nonlinear_arith)
            requires
                dd == d@ * pow2(q as nat),
                d@ > 0,
                pow2(q as nat) > 0,
        ;
    }
    let mut rem = n.copy();
    let mut f: u64 = 0;
    let mut i: u32 = 0;
    proof {
        lemma2_to64();
        lemma2_to64_rest();
        assert(0 * top@ == 0);
    }
    while i < 53
        invariant
            i <= 53,
            n@ * pow2(i as nat) == f * top@ + rem@,
            rem@ < top@,
            f < pow2(i as nat),
            pow2(53) == 2 * STEP,
        decreases 53 - i,
    {
        let ghost before = rem@;
        let ghost g = f;
        proof {
            lemma2_to64();
            lemma_pow2_adds(1, i as nat);
            if i < 52 {
                lemma_pow2_strictly_increases((i + 1) as nat, 53);
            }
            let p = pow2(i as nat) as int;
            assert(n@ * (2 * p) == 2 * (n@ * p)) by (nonlinear_arith);
            let t = top@ as int;
            assert(2 * (g * t + before) == (2 * g) * t + 2 * before) by (nonlinear_arith);
            assert((2 * g + 1) * t == (2 * g) * t + t) by (nonlinear_arith);
        }
        rem.mul_add(2, 0);
        f = f * 2;
        if !rem.less(&top) {
            rem.subtract(&top);
            f = f + 1;
        }
        i = i + 1;
    }
    proof {
        lemma_quotient(n@, 53, dd, f as nat, rem@);
        let r = n@ % dd;
        let p = pow2(53) as int;
        lemma_pow2_pos(53);
        assert((2 * r < dd) == (2 * rem@ < top@)) by (nonlinear_arith)
            requires
                rem@ == r * p,
                top@ == dd * p,
                p > 0,
        ;
        assert((2 * r > dd) == (2 * rem@ > top@)) by (nonlinear_arith)
            requires
                rem@ == r * p,
                top@ == dd * p,
                p > 0,
        ;
    }
    rem.mul_add(2, 0);
    let up: bool = if rem.less(&top) {
        false
    } else if top.less(&rem) {
        true
    } else {
        f % 2 == 1
    };
    let m: u64 = if up { f + 1 } else { f };
    let all: u64 = (q as u64) * STEP + m;
    if all < INF {
        assemble(negative, all)
    } else {
        assemble(negative, INF)
    }
}

// ---------------------------------------------------------------- operations

/// `-x`.
pub open spec fn negated(x: Double) -> Double {
    with_sign(!x.negative(), x.magnitude())
}

/// The sum of no numbers: a zero with a minus sign, which changes no number that is added to it.
pub open spec fn no_sum() -> Double {
    negated(whole(0))
}

/// `x + y`.
pub open spec fn sum(x: Double, y: Double) -> Double {
    if x.nan() || y.nan() {
        not_a_number()
    } else if x.infinite() {
        if y.infinite() && x.negative() != y.negative() {
            not_a_number()
        } else {
            x
        }
    } else if y.infinite() {
        y
    } else {
        let u = x.units() + y.units();
        if u == 0 {
            with_sign(x.negative() && y.negative(), 0)
        } else if u < 0 {
            with_sign(true, rounded((-u) as nat, 1))
        } else {
            with_sign(false, rounded(u as nat, 1))
        }
    }
}

/// `x - y`.
pub open spec fn difference(x: Double, y: Double) -> Double {
    if y.nan() {
        not_a_number()
    } else {
        sum(x, negated(y))
    }
}

/// `x * y`.
pub open spec fn product(x: Double, y: Double) -> Double {
    let negative = x.negative() != y.negative();
    if x.nan() || y.nan() {
        not_a_number()
    } else if x.infinite() || y.infinite() {
        if x.magnitude() == 0 || y.magnitude() == 0 {
            not_a_number()
        } else {
            with_sign(negative, INF as nat)
        }
    } else {
        with_sign(negative, rounded(x.size() * y.size(), one()))
    }
}

/// `x / y`.
pub open spec fn quotient(x: Double, y: Double) -> Double {
    let negative = x.negative() != y.negative();
    if x.nan() || y.nan() {
        not_a_number()
    } else if x.infinite() {
        if y.infinite() {
            not_a_number()
        } else {
            with_sign(negative, INF as nat)
        }
    } else if y.infinite() {
        with_sign(negative, 0)
    } else if y.magnitude() == 0 {
        if x.magnitude() == 0 {
            not_a_number()
        } else {
            with_sign(negative, INF as nat)
        }
    } else {
        with_sign(negative, rounded(x.size() * one(), y.size()))
    }
}

/// `x < y`.
pub open spec fn less(x: Double, y: Double) -> bool {
    !x.nan() && !y.nan() && x.rank() < y.rank()
}

/// `x <= y`.
pub open spec fn at_most(x: Double, y: Double) -> bool {
    !x.nan() && !y.nan() && x.rank() <= y.rank()
}

/// The larger of two numbers; the other one, where one is not a number.
pub open spec fn larger(x: Double, y: Double) -> Double {
    if x.nan() || less(x, y) {
        y
    } else {
        x
    }
}

/// The smaller of two numbers; the other one, where one is not a number.
pub open spec fn smaller(x: Double, y: Double) -> Double {
    if x.nan() || less(y, x) {
        y
    } else {
        x
    }
}

/// The number nearest to the integer `i`.
pub open spec fn whole(i: int) -> Double {
    if i < 0 {
        with_sign(true, rounded((-i) as nat * one(), 1))
    } else {
        with_sign(false, rounded(i as nat * one(), 1))
    }
}

/// `x`, rounded to the nearest integer, ties away from zero.
pub open spec fn nearest(x: Double) -> Double {
    if x.finite() {
        with_sign(
            x.negative(),
            rounded((2 * x.size() + one()) as nat / (2 * one()) * one(), 1),
        )
    } else {
        x
    }
}

/// Whether `x` is an integer.
pub open spec fn is_whole(x: Double) -> bool {
    x.finite() && x.size() % one() == 0
}

/// The integer part of `x`, towards zero.
pub open spec fn truncated(x: Double) -> int {
    let t = (x.size() / one()) as int;
    if x.negative() {
        -t
    } else {
        t
    }
}

/// The integer part of `x`, held to the range from `lo` to `hi`; zero where `x` is not a
/// number.
pub open spec fn saturated(x: Double, lo: int, hi: int) -> int {
    if x.nan() {
        0
    } else if x.infinite() {
        if x.negative() {
            lo
        } else {
            hi
        }
    } else if truncated(x) < lo {
        lo
    } else if truncated(x) > hi {
        hi
    } else {
        truncated(x)
    }
}

/// `x`, held to the range from `lo` to `hi`.
pub open spec fn clamped(x: Double, lo: Double, hi: Double) -> Double {
    if less(x, lo) {
        lo
    } else if less(hi, x) {
        hi
    } else {
        x
    }
}

proof fn lemma_shifted(m: nat, e: nat, s: nat)
    requires
        e + s == 1074,
    ensures
        (m * pow2(e)) / one() == m / pow2(s),
        (m * pow2(e)) % one() == (m % pow2(s)) * pow2(e),
        one() == pow2(e) * pow2(s),
        pow2(e) > 0,
        pow2(s) > 0,
{
    lemma_pow2_adds(e, s);
    lemma_pow2_pos(e);
    lemma_pow2_pos(s);
    let a = pow2(e) as int;
    let b = pow2(s) as int;
    vstd::arithmetic::div_mod::lemma_div_multiples_vanish_quotient(a, m as int, b);
    vstd::arithmetic::div_mod::lemma_truncate_middle(m as int, a, b);
    lemma_mul_is_commutative(a, m as int);
    lemma_mul_is_commutative(a, m as int % b);
}

/// Two to the power `k`.
pub fn power(k: u32) -> (r: u64)
    requires
        k < 64,
    ensures
        r == pow2(k as nat),
{
    let mut r: u64 = 1;
    let mut i: u32 = 0;
    proof {
        lemma2_to64();
    }
    while i < k
        invariant
            i <= k < 64,
            r == pow2(i as nat),
        decreases k - i,
    {
        proof {
            lemma2_to64();
            lemma2_to64_rest();
            lemma_pow2_adds(1, i as nat);
            if i < 62 {
                lemma_pow2_strictly_increases((i + 1) as nat, 63);
            }
        }
        r = r * 2;
        i = i + 1;
    }
    r
}

impl Double {
    /// What is not a number.
    pub fn not_a_number() -> (r: Double)
        ensures
            r == not_a_number(),
    {
        Double { bits: NAN }
    }

    /// `-x`.
    pub fn negate(self) -> (r: Double)
        ensures
            r == negated(self),
    {
        assemble(!self.is_negative(), self.magnitude_bits())
    }

    /// The sum of no numbers.
    pub fn no_sum() -> (r: Double)
        ensures
            r == no_sum(),
    {
        Double::from_u64(0).negate()
    }

    /// `x + y`.
    pub fn plus(self, y: Double) -> (r: Double)
        ensures
            r == sum(self, y),
    {
        if self.is_nan() || y.is_nan() {
            return Double::not_a_number();
        }
        if self.is_infinite() {
            if y.is_infinite() && self.is_negative() != y.is_negative() {
                return Double::not_a_number();
            }
            return self;
        }
        if y.is_infinite() {
            return y;
        }
        let mut a = self.size_nat();
        let mut b = y.size_nat();
        let unit = Nat::from_u64(1);
        let n: bool = self.is_negative();
        if n == y.is_negative() {
            a.plus(&b);
            if a.is_zero() {
                assemble(n, 0)
            } else {
                round_ratio(n, &a, &unit)
            }
        } else if a.less(&b) {
            b.subtract(&a);
            round_ratio(!n, &b, &unit)
        } else {
            a.subtract(&b);
            if a.is_zero() {
                assemble(false, 0)
            } else {
                round_ratio(n, &a, &unit)
            }
        }
    }

    /// `x - y`.
    pub fn minus(self, y: Double) -> (r: Double)
        ensures
            r == difference(self, y),
    {
        if y.is_nan() {
            return Double::not_a_number();
        }
        self.plus(y.negate())
    }

    /// `x * y`.
    pub fn times(self, y: Double) -> (r: Double)
        ensures
            r == product(self, y),
    {
        if self.is_nan() || y.is_nan() {
            return Double::not_a_number();
        }
        let negative: bool = self.is_negative() != y.is_negative();
        if self.is_infinite() || y.is_infinite() {
            if self.magnitude_bits() == 0 || y.magnitude_bits() == 0 {
                return Double::not_a_number();
            }
            return assemble(negative, INF);
        }
        let (m, e) = y.parts();
        let mut n = self.size_nat();
        n.mul_u64(m);
        n.shift(e);
        proof {
            lemma_mul_is_associative(self.size() as int, m as int, pow2(e as nat) as int);
            lemma_pow2_pos(1074);
            assert(1 * one() == one());
        }
        let mut d = Nat::from_u64(1);
        d.shift(1074);
        round_ratio(negative, &n, &d)
    }

    /// `x / y`.
    pub fn over(self, y: Double) -> (r: Double)
        ensures
            r == quotient(self, y),
    {
        if self.is_nan() || y.is_nan() {
            return Double::not_a_number();
        }
        let negative: bool = self.is_negative() != y.is_negative();
        if self.is_infinite() {
            if y.is_infinite() {
                return Double::not_a_number();
            }
            return assemble(negative, INF);
        }
        if y.is_infinite() {
            return assemble(negative, 0);
        }
        if y.magnitude_bits() == 0 {
            if self.magnitude_bits() == 0 {
                return Double::not_a_number();
            }
            return assemble(negative, INF);
        }
        let mut n = self.size_nat();
        n.shift(1074);
        let d = y.size_nat();
        proof {
            lemma_magnitude_order(0, y.magnitude());
        }
        round_ratio(negative, &n, &d)
    }

    /// `x < y`.
    pub fn lt(self, y: Double) -> (r: bool)
        ensures
            r == less(self, y),
    {
        !self.is_nan() && !y.is_nan() && self.signed_magnitude() < y.signed_magnitude()
    }

    /// `x <= y`.
    pub fn le(self, y: Double) -> (r: bool)
        ensures
            r == at_most(self, y),
    {
        !self.is_nan() && !y.is_nan() && self.signed_magnitude() <= y.signed_magnitude()
    }

    fn signed_magnitude(self) -> (r: i64)
        ensures
            r == self.rank(),
    {
        let m: i64 = self.magnitude_bits() as i64;
        if self.is_negative() {
            -m
        } else {
            m
        }
    }

    /// The larger of two numbers; the other one, where one is not a number.
    pub fn max(self, y: Double) -> (r: Double)
        ensures
            r == larger(self, y),
    {
        if self.is_nan() || self.lt(y) {
            y
        } else {
            self
        }
    }

    /// The smaller of two numbers; the other one, where one is not a number.
    pub fn min(self, y: Double) -> (r: Double)
        ensures
            r == smaller(self, y),
    {
        if self.is_nan() || y.lt(self) {
            y
        } else {
            self
        }
    }

    /// This number, held to the range from `lo` to `hi`.
    pub fn clamp(self, lo: Double, hi: Double) -> (r: Double)
        ensures
            r == clamped(self, lo, hi),
    {
        if self.lt(lo) {
            lo
        } else if hi.lt(self) {
            hi
        } else {
            self
        }
    }

    /// The number nearest to `n`.
    pub fn from_u64(n: u64) -> (r: Double)
        ensures
            r == whole(n as int),
    {
        let mut a = Nat::from_u64(n);
        a.shift(1074);
        round_ratio(false, &a, &Nat::from_u64(1))
    }

    /// The number nearest to `n`.
    pub fn from_u128(n: u128) -> (r: Double)
        ensures
            r == whole(n as int),
    {
        let mut a = Nat::from_u64((n / 0x1_0000_0000_0000_0000) as u64);
        a.shift(64);
        proof {
            lemma2_to64();
        }
        a.plus(&Nat::from_u64((n % 0x1_0000_0000_0000_0000) as u64));
        a.shift(1074);
        round_ratio(false, &a, &Nat::from_u64(1))
    }

    /// This number, rounded to the nearest integer, ties away from zero.
    pub fn round(self) -> (r: Double)
        ensures
            r == nearest(self),
    {
        if !self.is_finite() {
            return self;
        }
        let (m, e) = self.parts();
        let unit = Nat::from_u64(1);
        if e >= 1074 {
            let n = self.size_nat();
            proof {
                let s = (e - 1074) as nat;
                lemma_pow2_adds(s, 1074);
                lemma_pow2_pos(1074);
                let u = one() as int;
                let k = m * pow2(s);
                lemma_mul_is_associative(m as int, pow2(s) as int, u);
                assert(self.size() == k * u);
                assert((2 * (k * u) + u) == k * (2 * u) + u) by (nonlinear_arith);
                lemma_fundamental_div_mod_converse(2 * (k * u) + u, 2 * u, k as int, u);
            }
            return round_ratio(self.is_negative(), &n, &unit);
        }
        let s: u32 = 1074 - e;
        let k: u64 = if s < 64 {
            let h: u64 = power(s - 1);
            let p: u64 = power(s);
            proof {
                lemma2_to64();
                lemma2_to64_rest();
                lemma_pow2_adds(1, (s - 1) as nat);
            }
            (m + h) / h / 2
        } else {
            0
        };
        proof {
            lemma_rounding_shift(m as nat, e as nat, s as nat, k as nat);
        }
        let mut n = Nat::from_u64(k);
        n.shift(1074);
        round_ratio(self.is_negative(), &n, &unit)
    }

    /// Whether this number is an integer.
    pub fn whole(self) -> (r: bool)
        ensures
            r == is_whole(self),
    {
        if !self.is_finite() {
            return false;
        }
        let (m, e) = self.parts();
        if e >= 1074 {
            proof {
                let s = (e - 1074) as nat;
                lemma_pow2_adds(s, 1074);
                lemma_pow2_pos(1074);
                lemma_mul_is_associative(m as int, pow2(s) as int, one() as int);
                vstd::arithmetic::div_mod::lemma_mod_multiples_basic(
                    m * pow2(s) as int,
                    one() as int,
                );
            }
            return true;
        }
        let s: u32 = 1074 - e;
        proof {
            lemma_shifted(m as nat, e as nat, s as nat);
            let r = m as nat % pow2(s as nat);
            let p = pow2(e as nat);
            assert((r * p == 0) == (r == 0)) by (nonlinear_arith)
                requires
                    p > 0,
            ;
        }
        if s < 64 {
            m % power(s) == 0
        } else {
            proof {
                lemma_small(m, s as nat);
            }
            m == 0
        }
    }

    /// The integer part without the sign, where it fits.
    fn whole_part(self) -> (r: Option<u64>)
        requires
            self.finite(),
        ensures
            match r {
                Some(t) => t == self.size() / one(),
                None => self.size() / one() > u64::MAX,
            },
    {
        let (m, e) = self.parts();
        if e >= 1074 {
            let s: u32 = e - 1074;
            proof {
                lemma_pow2_adds(s as nat, 1074);
                lemma_pow2_pos(1074);
                lemma_mul_is_associative(m as int, pow2(s as nat) as int, one() as int);
                vstd::arithmetic::div_mod::lemma_div_by_multiple(
                    m * pow2(s as nat) as int,
                    one() as int,
                );
                lemma2_to64();
                lemma2_to64_rest();
            }
            if s >= 12 {
                proof {
                    if s > 12 {
                        lemma_pow2_strictly_increases(12, s as nat);
                    }
                    assert(m * pow2(s as nat) >= 0x10_0000_0000_0000 * 0x1000) by (nonlinear_arith)
                        requires
                            m >= 0x10_0000_0000_0000,
                            pow2(s as nat) >= 0x1000,
                    ;
                }
                return None;
            }
            let p: u64 = power(s);
            proof {
                if s < 11 {
                    lemma_pow2_strictly_increases(s as nat, 11);
                }
                assert(m * p <= 0x1f_ffff_ffff_ffff * 0x800) by (nonlinear_arith)
                    requires
                        m <= 0x1f_ffff_ffff_ffff,
                        0 <= p <= 0x800,
                ;
            }
            return Some(m * p);
        }
        let s: u32 = 1074 - e;
        proof {
            lemma_shifted(m as nat, e as nat, s as nat);
        }
        if s < 64 {
            Some(m / power(s))
        } else {
            proof {
                lemma_small(m, s as nat);
            }
            Some(0)
        }
    }

    /// The integer part, held to the range from `lo` to `hi`; zero where this is not a
    /// number.
    pub fn to_range(self, lo: i128, hi: i128) -> (r: i128)
        requires
            -0x8000_0000_0000_0000 <= lo <= 0,
            0 <= hi <= 0xffff_ffff_ffff_ffff,
        ensures
            r == saturated(self, lo as int, hi as int),
    {
        if self.is_nan() {
            return 0;
        }
        if self.is_infinite() {
            return if self.is_negative() {
                lo
            } else {
                hi
            };
        }
        let t: i128 = match self.whole_part() {
            Some(t) => t as i128,
            None => 0x1_0000_0000_0000_0000,
        };
        let v: i128 = if self.is_negative() {
            -t
        } else {
            t
        };
        if v < lo {
            lo
        } else if v > hi {
            hi
        } else {
            v
        }
    }
}

proof fn lemma_small(m: u64, s: nat)
    requires
        s >= 64,
    ensures
        m < pow2(s),
        m as nat / pow2(s) == 0,
        m as nat % pow2(s) == m,
{
    lemma2_to64();
    if s > 64 {
        lemma_pow2_strictly_increases(64, s);
    }
    lemma_fundamental_div_mod_converse(m as int, pow2(s) as int, 0, m as int);
}

proof fn lemma_rounding_shift(m: nat, e: nat, s: nat, k: nat)
    requires
        e + s == 1074,
        s > 0,
        m < 2 * STEP,
        s < 64 ==> k == (m + pow2((s - 1) as nat)) as nat / pow2((s - 1) as nat) / 2,
        s >= 64 ==> k == 0,
    ensures
        (2 * (m * pow2(e)) + one()) as nat / (2 * one()) == k,
{
    lemma2_to64();
    lemma2_to64_rest();
    lemma_shifted(m, e, s);
    let a = pow2(e) as int;
    let b = pow2(s) as int;
    assert(2 * (m * a) + a * b == a * (2 * m + b)) by (nonlinear_arith);
    assert(2 * (a * b) == a * (2 * b)) by (nonlinear_arith);
    vstd::arithmetic::div_mod::lemma_div_multiples_vanish_quotient(a, 2 * m + b, 2 * b);
    if s >= 64 {
        if s > 64 {
            lemma_pow2_strictly_increases(64, s);
        }
        lemma_fundamental_div_mod_converse(2 * m + b, 2 * b, 0, 2 * m + b);
    } else {
        let h = pow2((s - 1) as nat) as int;
        lemma_pow2_adds(1, (s - 1) as nat);
        lemma_pow2_pos((s - 1) as nat);
        vstd::arithmetic::div_mod::lemma_div_denominator(m + h, h, 2);
        vstd::arithmetic::div_mod::lemma_div_multiples_vanish_quotient(2, m + h, h * 2);
        assert(2 * (m + h) == 2 * m + b);
        assert(2 * (h * 2) == 2 * b);
    }
}

// ---------------------------------------------------------------- order and exactness

proof fn lemma_magnitude_next(m: nat)
    ensures
        magnitude_units(m) < magnitude_units(m + 1),
{
    lemma2_to64();
    if m + 1 >= STEP {
        if m + 1 == STEP {
            assert(magnitude_units(m + 1) == STEP * 1);
        } else {
            let e = (m / STEP as nat - 1) as nat;
            let f = m % STEP as nat;
            lemma_pow2_pos(e);
            let p = pow2(e) as int;
            if f + 1 == STEP {
                assert((m + 1) / STEP as nat == e + 2);
                assert((m + 1) % STEP as nat == 0);
                lemma_pow2_adds(1, e);
                assert((STEP + f) * p < STEP * (2 * p)) by (nonlinear_arith)
                    requires
                        f + 1 == STEP,
                        p > 0,
                ;
            } else {
                assert((m + 1) / STEP as nat == e + 1);
                assert((m + 1) % STEP as nat == f + 1);
                assert((STEP + f) * p < (STEP + f + 1) * p) by (nonlinear_arith)
                    requires
                        p > 0,
                ;
            }
        }
    }
}

/// A greater magnitude is a greater value.
pub proof fn lemma_magnitude_order(a: nat, b: nat)
    requires
        a < b,
    ensures
        magnitude_units(a) < magnitude_units(b),
    decreases b,
{
    lemma_magnitude_next((b - 1) as nat);
    if a < b - 1 {
        lemma_magnitude_order(a, (b - 1) as nat);
    }
}

/// The order of finite numbers is the order of their values.
pub proof fn lemma_order(x: Double, y: Double)
    requires
        x.finite(),
        y.finite(),
    ensures
        less(x, y) == (x.units() < y.units()),
        at_most(x, y) == (x.units() <= y.units()),
{
    let a = x.magnitude();
    let b = y.magnitude();
    if a < b {
        lemma_magnitude_order(a, b);
    }
    if b < a {
        lemma_magnitude_order(b, a);
    }
    if 0 < a {
        lemma_magnitude_order(0, a);
    }
    if 0 < b {
        lemma_magnitude_order(0, b);
    }
}

/// A number rounds to itself.
pub proof fn lemma_rounded_exact(m: nat)
    requires
        m <= INF,
    ensures
        rounded(magnitude_units(m), 1) == m,
{
    lemma2_to64();
    lemma2_to64_rest();
    let (e, f): (nat, nat) = if m < STEP {
        (0, m)
    } else {
        ((m / STEP as nat - 1) as nat, (STEP + m % STEP as nat) as nat)
    };
    let p = pow2(e) as int;
    lemma_pow2_pos(e);
    let n = magnitude_units(m);
    assert(f * 1 == f);
    assert(n == f * p);
    lemma_pow2_adds(53, e);
    lemma_pow2_adds(52, e);
    assert(f * p < 0x20_0000_0000_0000 * p) by (nonlinear_arith)
        requires
            f < 0x20_0000_0000_0000,
            p > 0,
    ;
    if e > 0 {
        assert(0x10_0000_0000_0000 * p <= f * p) by (nonlinear_arith)
            requires
                f >= 0x10_0000_0000_0000,
                p > 0,
        ;
    }
    assert(1 * pow2(53 + e) == pow2(53 + e));
    assert(1 * pow2((52 + e) as nat) == pow2((52 + e) as nat));
    assert(is_scale(n, 1, e));
    lemma_scale_is(n, 1, e);
    assert(1 * pow2(e) == pow2(e));
    lemma_fundamental_div_mod_converse(n as int, p, f as int, 0);
}

pub(crate) proof fn lemma_half_even_bounds(n: nat, d: nat)
    requires
        d > 0,
    ensures
        2 * (half_even(n, d) * d) <= 2 * n + d,
        2 * n <= 2 * (half_even(n, d) * d) + d,
        2 * (half_even(n, d) * d) == 2 * n + d ==> half_even(n, d) % 2 == 0,
        2 * n == 2 * (half_even(n, d) * d) + d ==> half_even(n, d) % 2 == 0,
{
    lemma_fundamental_div_mod(n as int, d as int);
    let q = (n / d) as int;
    lemma_mul_is_commutative(q, d as int);
    assert((q + 1) * d == q * d + d) by (nonlinear_arith);
}

pub(crate) proof fn lemma_half_even_order(a: nat, b: nat, c: nat, d: nat)
    requires
        b > 0,
        d > 0,
        a * d <= c * b,
    ensures
        half_even(a, b) <= half_even(c, d),
{
    lemma_half_even_bounds(a, b);
    lemma_half_even_bounds(c, d);
    let x = half_even(a, b) as int;
    let y = half_even(c, d) as int;
    if x > y {
        let bb = b as int;
        let dd = d as int;
        let ab = a as int;
        let cd = c as int;
        // (2y + 1) b <= 2a and 2c <= (2y + 1) d
        assert((2 * y + 1) * bb <= 2 * ab) by (nonlinear_arith)
            requires
                2 * (x * bb) <= 2 * ab + bb,
                x >= y + 1,
                bb > 0,
        ;
        assert(2 * cd <= (2 * y + 1) * dd) by (nonlinear_arith)
            requires
                2 * cd <= 2 * (y * dd) + dd,
        ;
        assert((2 * y + 1) * bb * dd <= 2 * ab * dd) by (nonlinear_arith)
            requires
                (2 * y + 1) * bb <= 2 * ab,
                dd > 0,
        ;
        assert(2 * cd * bb <= (2 * y + 1) * dd * bb) by (nonlinear_arith)
            requires
                2 * cd <= (2 * y + 1) * dd,
                bb > 0,
        ;
        assert(2 * ab * dd == 2 * (ab * dd)) by (nonlinear_arith);
        assert(2 * cd * bb == 2 * (cd * bb)) by (nonlinear_arith);
        assert((2 * y + 1) * bb * dd == (2 * y + 1) * dd * bb) by (nonlinear_arith);
        // so both are ties, at neighbours that cannot both be even
        assert(2 * ab == (2 * y + 1) * bb) by (nonlinear_arith)
            requires
                2 * ab * dd == (2 * y + 1) * bb * dd,
                dd > 0,
        ;
        assert(2 * cd == (2 * y + 1) * dd) by (nonlinear_arith)
            requires
                2 * cd * bb == (2 * y + 1) * dd * bb,
                bb > 0,
        ;
        assert((2 * y + 1) * dd == 2 * (y * dd) + dd) by (nonlinear_arith);
        assert((2 * y + 1) * bb == 2 * ((y + 1) * bb) - bb) by (nonlinear_arith);
        assert(x == y + 1) by (nonlinear_arith)
            requires
                2 * (x * bb) <= 2 * ab + bb,
                2 * ab == (2 * y + 1) * bb,
                x >= y + 1,
                bb > 0,
        ;
    }
}

/// Rounding keeps the order.
pub proof fn lemma_rounded_order(a: nat, b: nat, c: nat, d: nat)
    requires
        b > 0,
        d > 0,
        a * d <= c * b,
    ensures
        rounded(a, b) <= rounded(c, d),
{
    lemma2_to64();
    lemma2_to64_rest();
    lemma_scale(a, b);
    lemma_scale(c, d);
    let p = scale(a, b);
    let q = scale(c, d);
    let bb = b as int;
    let dd = d as int;
    if p > q {
        let t = pow2((52 + p) as nat) as int;
        if 53 + q < 52 + p {
            lemma_pow2_strictly_increases(53 + q, (52 + p) as nat);
        }
        let u = pow2(53 + q) as int;
        assert(false) by (nonlinear_arith)
            requires
                bb * t <= a,
                c < dd * u,
                u <= t,
                a * dd <= c * bb,
                bb > 0,
                dd > 0,
        ;
    }
    let x = half_even(a, b * pow2(p)) as int;
    let y = half_even(c, d * pow2(q)) as int;
    let s = pow2(p) as int;
    let r = pow2(q) as int;
    lemma_pow2_pos(p);
    lemma_pow2_pos(q);
    lemma_mul_strict(bb, s);
    lemma_mul_strict(dd, r);
    if p == q {
        assert(a * (dd * r) <= c * (bb * s)) by (nonlinear_arith)
            requires
                a * dd <= c * bb,
                r == s,
                s > 0,
        ;
        lemma_half_even_order(a, b * pow2(p), c, d * pow2(q));
    } else {
        lemma_half_even_bounds(a, b * pow2(p));
        lemma_half_even_bounds(c, d * pow2(q));
        lemma_pow2_adds(53, p);
        lemma_pow2_adds(52, q);
        // x <= 2^53
        assert(x <= 0x20_0000_0000_0000) by (nonlinear_arith)
            requires
                2 * (x * (bb * s)) <= 2 * a + bb * s,
                a < bb * (0x20_0000_0000_0000 * s),
                bb * s > 0,
        ;
        // y >= 2^52
        assert(y >= 0x10_0000_0000_0000) by (nonlinear_arith)
            requires
                2 * c <= 2 * (y * (dd * r)) + dd * r,
                dd * (0x10_0000_0000_0000 * r) <= c,
                dd * r > 0,
        ;
        assert(p * STEP + x <= q * STEP + y) by (nonlinear_arith)
            requires
                p + 1 <= q,
                x <= 2 * STEP,
                y >= STEP,
        ;
    }
}

proof fn lemma_mul_strict(a: int, b: int)
    requires
        a > 0,
        b > 0,
    ensures
        a * b > 0,
{
    assert(a * b > 0) by (nonlinear_arith)
        requires
            a > 0,
            b > 0,
    ;
}

pub proof fn lemma_magnitude_of(k: nat, e: nat) -> (m: nat)
    requires
        k < 0x20_0000_0000_0000,
        e <= 1074,
    ensures
        magnitude_units(m) == k * pow2(e),
        m < INF,
    decreases e,
{
    lemma2_to64();
    if e == 0 && k < STEP {
        assert(k * 1 == k);
        k
    } else if k >= STEP {
        let m = (e * STEP + k) as nat;
        lemma_fundamental_div_mod_converse(m as int, STEP as int, e as int + 1, k - STEP);
        m
    } else {
        lemma_pow2_adds(1, (e - 1) as nat);
        let p = pow2((e - 1) as nat) as int;
        assert((2 * k) * p == k * (2 * p)) by (nonlinear_arith);
        lemma_magnitude_of(2 * k, (e - 1) as nat)
    }
}

/// Every integer of up to 53 bits is a number.
pub proof fn lemma_whole_exact(k: nat)
    requires
        k < 0x20_0000_0000_0000,
    ensures
        whole(k as int).finite(),
        !whole(k as int).negative(),
        whole(k as int).units() == k * one(),
{
    let m = lemma_magnitude_of(k, 1074);
    lemma_rounded_exact(m);
    assert(whole(k as int) == with_sign(false, m));
}

} // verus!
