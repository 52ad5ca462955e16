//! Natural numbers of any size, as little-endian limbs of 32 bits.

use vstd::prelude::*;
use vstd::arithmetic::power2::{
    lemma2_to64, lemma_pow2_adds, lemma_pow2_pos, lemma_pow2_strictly_increases, pow2,
};

verus! {

/// One more than the largest limb.
pub const BASE: u64 = 0x1_0000_0000;

/// The weight of limb `i`.
pub open spec fn weight(i: nat) -> nat {
    pow2(32 * i)
}

/// Limb `i`, which is zero past the end.
pub open spec fn limb(s: Seq<u32>, i: int) -> nat {
    if 0 <= i < s.len() {
        s[i] as nat
    } else {
        0
    }
}

/// The value of the lowest `n` limbs.
pub open spec fn low(s: Seq<u32>, n: nat) -> nat
    decreases n,
{
    if n == 0 {
        0
    } else {
        low(s, (n - 1) as nat) + limb(s, n - 1) * weight((n - 1) as nat)
    }
}

proof fn lemma_weight(i: nat)
    ensures
        weight(0) == 1,
        weight(i + 1) == 0x1_0000_0000 * weight(i),
        weight(i) > 0,
{
    lemma2_to64();
    lemma_pow2_adds(32, 32 * i);
    lemma_pow2_pos(32 * i);
    assert(32 * (i + 1) == 32 + 32 * i);
}

proof fn lemma_low_bound(s: Seq<u32>, n: nat)
    ensures
        low(s, n) < weight(n),
    decreases n,
{
    lemma_weight(n);
    if n > 0 {
        let m = (n - 1) as nat;
        lemma_low_bound(s, m);
        lemma_weight(m);
        let w = weight(m) as int;
        let x = limb(s, n - 1) as int;
        assert(x * w <= 0xffff_ffff * w) by (nonlinear_arith)
            requires
                x <= 0xffff_ffff,
                w > 0,
        ;
    }
}

/// What the lowest `n` limbs and one more amount to.
pub proof fn lemma_low_bounds(s: Seq<u32>, n: nat)
    ensures
        low(s, n) < weight(n),
        low(s, n + 1) == low(s, n) + limb(s, n as int) * weight(n),
{
    lemma_low_bound(s, n);
}

proof fn lemma_low_same(a: Seq<u32>, b: Seq<u32>, n: nat)
    requires
        forall|i: int| 0 <= i < n ==> limb(a, i) == limb(b, i),
    ensures
        low(a, n) == low(b, n),
    decreases n,
{
    if n > 0 {
        lemma_low_same(a, b, (n - 1) as nat);
    }
}

/// Limbs past the end change nothing.
proof fn lemma_low_pad(s: Seq<u32>, n: nat)
    requires
        n >= s.len(),
    ensures
        low(s, n) == low(s, s.len()),
    decreases n,
{
    if n > s.len() {
        lemma_low_pad(s, (n - 1) as nat);
        assert(0 * weight((n - 1) as nat) == 0);
    }
}

proof fn lemma_low_push(s: Seq<u32>, x: u32)
    ensures
        low(s.push(x), s.len() + 1) == low(s, s.len()) + x * weight(s.len()),
{
    lemma_low_same(s.push(x), s, s.len());
}

/// A natural number. Its view is its value.
pub struct Nat {
    pub limbs: Vec<u32>,
}

impl View for Nat {
    type V = nat;

    open spec fn view(&self) -> nat {
        low(self.limbs@, self.limbs@.len())
    }
}

impl Nat {
    /// The number `x`.
    pub fn from_u64(x: u64) -> (r: Nat)
        ensures
            r@ == x,
    {
        let mut limbs: Vec<u32> = Vec::new();
        let lo: u32 = (x % BASE) as u32;
        let hi: u32 = (x / BASE) as u32;
        limbs.push(lo);
        limbs.push(hi);
        proof {
            lemma_weight(0);
            reveal_with_fuel(low, 3);
            assert(limbs@ == seq![lo, hi]);
            assert(limb(limbs@, 0) == lo);
            assert(limb(limbs@, 1) == hi);
            assert(low(limbs@, 2) == lo * weight(0) + hi * weight(1));
        }
        Nat { limbs }
    }

    /// A copy.
    pub fn copy(&self) -> (r: Nat)
        ensures
            r@ == self@,
    {
        let limbs = self.limbs.clone();
        assert(limbs@ =~= self.limbs@);
        Nat { limbs }
    }

    /// Multiplies by `k` and adds `c`.
    pub fn mul_add(&mut self, k: u32, c: u32)
        ensures
            final(self)@ == old(self)@ * k + c,
    {
        let mut out: Vec<u32> = Vec::new();
        let mut carry: u64 = c as u64;
        let mut i: usize = 0;
        let n: usize = self.limbs.len();
        proof {
            lemma_weight(0);
            assert(carry * 1 == carry);
            assert(0 * k == 0);
        }
        while i < n
            invariant
                n == self.limbs@.len(),
                i <= n,
                out@.len() == i,
                carry <= 0xffff_ffff,
                low(out@, i as nat) + carry * weight(i as nat) == low(self.limbs@, i as nat) * k
                    + c,
            decreases n - i,
        {
            let x: u32 = self.limbs[i];
            proof {
                assert(0 <= x * k <= 0xffff_ffff * 0xffff_ffff) by (nonlinear_arith)
                    requires
                        0 <= x <= 0xffff_ffff,
                        0 <= k <= 0xffff_ffff,
                ;
            }
            let t: u64 = (x as u64) * (k as u64) + carry;
            let d: u32 = (t % BASE) as u32;
            let next: u64 = t / BASE;
            proof {
                let w = weight(i as nat) as int;
                lemma_weight(i as nat);
                lemma_low_push(out@, d);
                assert(t == next * BASE + d);
                assert(d * w + next * (0x1_0000_0000 * w) == t * w) by (nonlinear_arith)
                    requires
                        t == next * 0x1_0000_0000 + d,
                ;
                assert(t * w == (x * w) * k + carry * w) by (nonlinear_arith)
                    requires
                        t == x * k + carry,
                ;
                let a = low(self.limbs@, i as nat) as int;
                assert((a + x * w) * k == a * k + (x * w) * k) by (nonlinear_arith);
                assert(t <= 0xffff_ffff * 0xffff_ffff + 0xffff_ffff);
            }
            out.push(d);
            carry = next;
            i = i + 1;
        }
        if carry > 0 {
            proof {
                lemma_low_push(out@, carry as u32);
            }
            out.push(carry as u32);
        } else {
            assert(0 * weight(n as nat) == 0);
        }
        self.limbs = out;
    }

    /// Multiplies by two to the power `k`.
    pub fn shift(&mut self, k: u32)
        ensures
            final(self)@ == old(self)@ * pow2(k as nat),
    {
        let words: usize = (k / 32) as usize;
        let bits: u32 = k % 32;
        let mut out: Vec<u32> = Vec::new();
        let mut i: usize = 0;
        while i < words
            invariant
                i <= words,
                out@.len() == i,
                low(out@, i as nat) == 0,
            decreases words - i,
        {
            proof {
                lemma_low_push(out@, 0);
                assert(0 * weight(i as nat) == 0);
            }
            out.push(0);
            i = i + 1;
        }
        let n: usize = self.limbs.len();
        let mut j: usize = 0;
        assert(0 * weight(words as nat) == 0);
        while j < n
            invariant
                n == self.limbs@.len(),
                j <= n,
                out@.len() == words + j,
                low(out@, (words + j) as nat) == low(self.limbs@, j as nat) * weight(words as nat),
            decreases n - j,
        {
            let x: u32 = self.limbs[j];
            proof {
                lemma_low_push(out@, x);
                let a = low(self.limbs@, j as nat) as int;
                let w = weight(j as nat) as int;
                let v = weight(words as nat) as int;
                lemma_pow2_adds(32 * j as nat, 32 * words as nat);
                assert(32 * (words + j) == 32 * j + 32 * words);
                assert(weight((words + j) as nat) == w * v);
                assert((a + x * w) * v == a * v + x * (w * v)) by (nonlinear_arith);
            }
            out.push(x);
            j = j + 1;
        }
        let ghost before = self@;
        self.limbs = out;
        assert(self@ == before * weight(words as nat));
        let mut m: u32 = 1;
        let mut b: u32 = 0;
        proof {
            lemma2_to64();
        }
        while b < bits
            invariant
                b <= bits < 32,
                m == pow2(b as nat),
            decreases bits - b,
        {
            proof {
                lemma_pow2_adds(1, b as nat);
                lemma2_to64();
                if b < 31 {
                    lemma_pow2_strictly_increases(b as nat, 31);
                }
            }
            m = m * 2;
            b = b + 1;
        }
        self.mul_add(m, 0);
        proof {
            let v = weight(words as nat) as int;
            lemma_pow2_adds(32 * words as nat, bits as nat);
            assert(32 * words + bits == k);
            assert((before * v) * m == before * (v * m)) by (nonlinear_arith);
        }
    }

    /// Whether this number is less than `other`.
    pub fn less(&self, other: &Nat) -> (r: bool)
        ensures
            r == (self@ < other@),
    {
        let a: usize = self.limbs.len();
        let b: usize = other.limbs.len();
        let n: usize = if a < b { b } else { a };
        let mut i: usize = n;
        proof {
            lemma_low_pad(self.limbs@, n as nat);
            lemma_low_pad(other.limbs@, n as nat);
        }
        while i > 0
            invariant
                a == self.limbs@.len(),
                b == other.limbs@.len(),
                i <= n,
                a <= n,
                b <= n,
                (self@ < other@) == (low(self.limbs@, i as nat) < low(other.limbs@, i as nat)),
            decreases i,
        {
            let x: u32 = if i - 1 < a { self.limbs[i - 1] } else { 0 };
            let y: u32 = if i - 1 < b { other.limbs[i - 1] } else { 0 };
            proof {
                let m = (i - 1) as nat;
                let w = weight(m) as int;
                lemma_low_bound(self.limbs@, m);
                lemma_low_bound(other.limbs@, m);
                assert(limb(self.limbs@, m as int) == x);
                assert(limb(other.limbs@, m as int) == y);
                if x < y {
                    assert((x + 1) * w <= y * w) by (nonlinear_arith)
                        requires
                            x + 1 <= y,
                            w >= 0,
                    ;
                    assert((x + 1) * w == x * w + w) by (nonlinear_arith);
                }
                if y < x {
                    assert((y + 1) * w <= x * w) by (nonlinear_arith)
                        requires
                            y + 1 <= x,
                            w >= 0,
                    ;
                    assert((y + 1) * w == y * w + w) by (nonlinear_arith);
                }
            }
            if x < y {
                return true;
            }
            if y < x {
                return false;
            }
            i = i - 1;
        }
        false
    }

    /// Whether this number is zero.
    pub fn is_zero(&self) -> (r: bool)
        ensures
            r == (self@ == 0),
    {
        !Nat::from_u64(0).less(self)
    }

    /// Subtracts `other`, which is no greater.
    pub fn subtract(&mut self, other: &Nat)
        requires
            other@ <= old(self)@,
        ensures
            final(self)@ == old(self)@ - other@,
    {
        let a: usize = self.limbs.len();
        let b: usize = other.limbs.len();
        let n: usize = if a < b { b } else { a };
        let mut out: Vec<u32> = Vec::new();
        let mut borrow: u64 = 0;
        let mut i: usize = 0;
        proof {
            lemma_weight(0);
            lemma_low_pad(self.limbs@, n as nat);
            lemma_low_pad(other.limbs@, n as nat);
        }
        while i < n
            invariant
                a == self.limbs@.len(),
                b == other.limbs@.len(),
                i <= n,
                out@.len() == i,
                borrow <= 1,
                low(out@, i as nat) + low(other.limbs@, i as nat) == low(self.limbs@, i as nat)
                    + borrow * weight(i as nat),
            decreases n - i,
        {
            let x: u32 = if i < a { self.limbs[i] } else { 0 };
            let y: u32 = if i < b { other.limbs[i] } else { 0 };
            let t: u64 = BASE + x as u64 - y as u64 - borrow;
            let d: u32 = (t % BASE) as u32;
            let next: u64 = 1 - t / BASE;
            proof {
                let w = weight(i as nat) as int;
                lemma_weight(i as nat);
                lemma_low_push(out@, d);
                assert(d + y + borrow == x + next * 0x1_0000_0000);
                assert(d * w + y * w + borrow * w == x * w + next * (0x1_0000_0000 * w))
                    by (nonlinear_arith)
                    requires
                        d + y + borrow == x + next * 0x1_0000_0000,
                ;
            }
            out.push(d);
            borrow = next;
            i = i + 1;
        }
        proof {
            lemma_low_bound(out@, n as nat);
            let w = weight(n as nat) as int;
            if borrow == 1 {
                assert(1 * w == w);
                assert(false);
            }
            assert(0 * w == 0);
        }
        let ghost want = (self@ - other@) as nat;
        while out.len() > 0 && out[out.len() - 1] == 0
            invariant
                low(out@, out@.len()) == want,
            decreases out@.len(),
        {
            let ghost before = out@;
            out.pop();
            proof {
                assert(before =~= out@.push(0));
                lemma_low_push(out@, 0);
                assert(0 * weight(out@.len()) == 0);
            }
        }
        self.limbs = out;
    }

    /// Adds `other`.
    pub fn plus(&mut self, other: &Nat)
        ensures
            final(self)@ == old(self)@ + other@,
    {
        let a: usize = self.limbs.len();
        let b: usize = other.limbs.len();
        let n: usize = if a < b { b } else { a };
        let mut out: Vec<u32> = Vec::new();
        let mut carry: u64 = 0;
        let mut i: usize = 0;
        proof {
            lemma_weight(0);
            lemma_low_pad(self.limbs@, n as nat);
            lemma_low_pad(other.limbs@, n as nat);
        }
        while i < n
            invariant
                a == self.limbs@.len(),
                b == other.limbs@.len(),
                i <= n,
                out@.len() == i,
                carry <= 1,
                low(out@, i as nat) + carry * weight(i as nat) == low(self.limbs@, i as nat) + low(
                    other.limbs@,
                    i as nat,
                ),
            decreases n - i,
        {
            let x: u32 = if i < a { self.limbs[i] } else { 0 };
            let y: u32 = if i < b { other.limbs[i] } else { 0 };
            let t: u64 = x as u64 + y as u64 + carry;
            let d: u32 = (t % BASE) as u32;
            let next: u64 = t / BASE;
            proof {
                let w = weight(i as nat) as int;
                lemma_weight(i as nat);
                lemma_low_push(out@, d);
                assert(d * w + next * (0x1_0000_0000 * w) == x * w + y * w + carry * w)
                    by (nonlinear_arith)
                    requires
                        d + next * 0x1_0000_0000 == x + y + carry,
                ;
            }
            out.push(d);
            carry = next;
            i = i + 1;
        }
        if carry > 0 {
            proof {
                lemma_low_push(out@, carry as u32);
            }
            out.push(carry as u32);
        } else {
            assert(0 * weight(n as nat) == 0);
        }
        self.limbs = out;
    }

    /// Multiplies by `k`.
    pub fn mul_u64(&mut self, k: u64)
        ensures
            final(self)@ == old(self)@ * k,
    {
        let hi: u32 = (k / BASE) as u32;
        let lo: u32 = (k % BASE) as u32;
        let mut low_part = self.copy();
        low_part.mul_add(lo, 0);
        let ghost before = self@;
        self.mul_add(hi, 0);
        self.shift(32);
        self.plus(&low_part);
        proof {
            lemma2_to64();
            assert((before * hi) * 0x1_0000_0000 + before * lo == before * k) by (nonlinear_arith)
                requires
                    k == hi * 0x1_0000_0000 + lo,
            ;
        }
    }

    /// Divides by `k` and returns the remainder.
    pub fn div_small(&mut self, k: u32) -> (r: u32)
        requires
            k > 0,
        ensures
            old(self)@ == final(self)@ * k + r,
            r < k,
    {
        let n: usize = self.limbs.len();
        let mut out: Vec<u32> = Vec::new();
        let mut z: usize = 0;
        while z < n
            invariant
                z <= n,
                out@.len() == z,
            decreases n - z,
        {
            out.push(0);
            z = z + 1;
        }
        let mut rem: u64 = 0;
        let mut i: usize = n;
        let ghost high = 0nat;
        assert(0 * weight(n as nat) == 0);
        // `high` is the part of the quotient found so far.
        while i > 0
            invariant
                k > 0,
                n == self.limbs@.len(),
                out@.len() == n,
                i <= n,
                rem < k,
                low(self.limbs@, n as nat) == high * k + rem * weight(i as nat) + low(
                    self.limbs@,
                    i as nat,
                ),
                forall|q: Seq<u32>|
                    q.len() == n && (forall|j: int| i <= j < n ==> #[trigger] q[j] == out@[j])
                        ==> #[trigger] low(q, n as nat) == low(q, i as nat) + high,
            decreases i,
        {
            let x: u32 = self.limbs[i - 1];
            proof {
                assert(0 <= rem * 0x1_0000_0000 <= 0xffff_fffe * 0x1_0000_0000) by (nonlinear_arith)
                    requires
                        0 <= rem <= 0xffff_fffe,
                ;
            }
            let t: u64 = rem * BASE + x as u64;
            let d64: u64 = t / (k as u64);
            let next: u64 = t % (k as u64);
            proof {
                vstd::arithmetic::div_mod::lemma_fundamental_div_mod(t as int, k as int);
                assert(d64 <= 0xffff_ffff) by (nonlinear_arith)
                    requires
                        t == k * d64 + next,
                        t <= rem * 0x1_0000_0000 + 0xffff_ffff,
                        rem + 1 <= k,
                        next >= 0,
                        k > 0,
                ;
            }
            let d: u32 = d64 as u32;
            let ghost prev_out = out@;
            let ghost prev_high = high;
            out.set(i - 1, d);
            proof {
                let m = (i - 1) as nat;
                let w = weight(m) as int;
                lemma_weight(m);
                high = high + d as nat * weight(m);
                assert(prev_high * k + rem * (0x1_0000_0000 * w) + x * w == (prev_high + d * w) * k
                    + next * w) by (nonlinear_arith)
                    requires
                        rem * 0x1_0000_0000 + x == k * d + next,
                ;
                assert forall|q: Seq<u32>|
                    q.len() == n && (forall|j: int| m <= j < n ==> #[trigger] q[j] == out@[j])
                    implies #[trigger] low(q, n as nat) == low(q, m) + high by {
                    assert(forall|j: int| i <= j < n ==> #[trigger] q[j] == prev_out[j]) by {
                        assert(forall|j: int| i <= j < n ==> out@[j] == prev_out[j]);
                    }
                    assert(low(q, n as nat) == low(q, i as nat) + prev_high);
                    assert(q[m as int] == out@[m as int]);
                    assert(low(q, i as nat) == low(q, m) + d as nat * weight(m));
                }
            }
            rem = next;
            i = i - 1;
        }
        proof {
            lemma_weight(0);
            assert(rem * 1 == rem);
            assert(low(out@, n as nat) == high);
        }
        while out.len() > 0 && out[out.len() - 1] == 0
            invariant
                low(out@, out@.len()) == high,
            decreases out@.len(),
        {
            let ghost before = out@;
            out.pop();
            proof {
                assert(before =~= out@.push(0));
                lemma_low_push(out@, 0);
                assert(0 * weight(out@.len()) == 0);
            }
        }
        self.limbs = out;
        rem as u32
    }
}

} // verus!
