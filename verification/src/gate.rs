//! Machine-wide ceiling on outbound ssh connections.
//!
//! Two rules, both enforced: a least gap between any two connections, and a largest number of
//! connections in any window of time.

use vstd::prelude::*;
use vstd::arithmetic::power2::{lemma2_to64, lemma_pow2_adds, lemma_pow2_pos, pow2};
use crate::decimal::{
    dec, digits_end, fixed, fixed_text, lemma_digits_up_to, lemma_filled, lemma_number_join,
    lemma_numeral_number, literal, number, parse_double, parsed, scaled, sign_text, small_letter,
    ten, unsigned,
};
use crate::double::{
    assemble, at_most, difference, half_even, larger, lemma_magnitude_order, lemma_order,
    lemma_rounded_exact, lemma_rounded_order, lemma_whole_exact, less, magnitude_units, negated,
    one, product, quotient, rounded, saturated, smaller, sum, whole, with_sign, Double, INF,
};
use crate::json::listed;
use crate::text::{
    chars_of, find_from, is_digit, is_space, numeral, part, space_end, space_start, split, split_at,
    texts, trim, trimmed, zero_fill,
};

verus! {

/// The number of connections per second that no configuration can exceed. The campus
/// threshold is about sixty; bursting anywhere near it got the network suspended once.
pub const HARD_CEILING_PER_SEC: u64 = 2;

/// The gap where the configuration names none, in tenths of a second.
pub const DEFAULT_MIN_GAP: u64 = 25;

/// The window where the configuration names none, in seconds.
pub const DEFAULT_WINDOW: u64 = 10;

/// The number of connections in a window where the configuration names none.
pub const DEFAULT_MAX_PER_WINDOW: usize = 5;

/// The limits that connections are held to.
pub struct Gate {
    pub min_gap: Double,
    pub window: Double,
    pub max_per_window: usize,
}

/// The number of connections in a window that the hard ceiling allows, and one at least.
pub open spec fn allowed_in(window: Double) -> int {
    let a = saturated(product(window, whole(HARD_CEILING_PER_SEC as int)), 0, usize::MAX as int);
    if a < 1 {
        1
    } else {
        a
    }
}

impl Gate {
    /// Whether the limits keep to the hard ceiling.
    pub open spec fn wf(self) -> bool {
        &&& at_most(quotient(whole(1), whole(HARD_CEILING_PER_SEC as int)), self.min_gap)
        &&& at_most(whole(1), self.window)
        &&& 1 <= self.max_per_window <= allowed_in(self.window)
    }

    /// The most connections per second that these limits let through in the long run.
    pub open spec fn rate(self) -> Double {
        smaller(
            quotient(whole(1), self.min_gap),
            quotient(whole(self.max_per_window as int), self.window),
        )
    }

    /// The limits that were asked for, held to the hard ceiling: no configuration can remove
    /// the protection.
    pub fn new(min_gap: Double, window: Double, max_per_window: usize) -> (r: Gate)
        ensures
            r.window == larger(window, whole(1)),
            r.min_gap == larger(
                min_gap,
                quotient(whole(1), whole(HARD_CEILING_PER_SEC as int)),
            ),
            ({
                let asked = if max_per_window < 1 {
                    1
                } else {
                    max_per_window as int
                };
                r.max_per_window == if asked > allowed_in(r.window) {
                    allowed_in(r.window)
                } else {
                    asked
                }
            }),
            r.wf(),
    {
        let one = Double::from_u64(1);
        let ceiling = Double::from_u64(HARD_CEILING_PER_SEC);
        let window = window.max(one);
        let min_gap = min_gap.max(one.over(ceiling));
        let mut allowed: usize = window.times(ceiling).to_range(0, usize::MAX as i128) as usize;
        if allowed < 1 {
            allowed = 1;
        }
        let asked: usize = if max_per_window < 1 {
            1
        } else {
            max_per_window
        };
        proof {
            lemma_whole_exact(1);
            lemma_half();
        }
        Gate {
            min_gap,
            window,
            max_per_window: if asked > allowed {
                allowed
            } else {
                asked
            },
        }
    }

    /// The most connections per second that these limits let through in the long run.
    pub fn rate_per_sec(&self) -> (r: Double)
        ensures
            r == self.rate(),
            self.wf() ==> at_most(r, whole(HARD_CEILING_PER_SEC as int)),
    {
        proof {
            if self.wf() {
                lemma_rate_ceiling(*self);
            }
        }
        Double::from_u64(1).over(self.min_gap).min(
            Double::from_u64(self.max_per_window as u64).over(self.window),
        )
    }
}

/// A half: its value, and that one over a half is two.
proof fn lemma_half()
    ensures
        quotient(whole(1), whole(2)).finite(),
        !quotient(whole(1), whole(2)).negative(),
        quotient(whole(1), whole(2)).units() == pow2(1073),
        rounded(one() * one(), pow2(1073)) == whole(2).magnitude(),
        !quotient(whole(1), whole(2)).nan(),
{
    lemma2_to64();
    lemma_pow2_adds(1, 1073);
    lemma_pow2_pos(1073);
    lemma_whole_exact(1);
    lemma_whole_exact(2);
    let u = one();
    let h = pow2(1073);
    assert(whole(1).magnitude() != 0 && whole(2).magnitude() != 0) by {
        if whole(1).magnitude() == 0 {
            assert(magnitude_units(0) == 0);
        }
        if whole(2).magnitude() == 0 {
            assert(magnitude_units(0) == 0);
        }
    }
    let m = crate::double::lemma_magnitude_of(1, 1073);
    lemma_rounded_exact(m);
    assert(1 * h == h);
    // (1 / 2) in units is h / 1
    assert(whole(1).size() == u && whole(2).size() == 2 * u);
    assert((u * u) * 1 == h * (2 * u)) by (nonlinear_arith)
        requires
            u == 2 * h,
    ;
    lemma_pow2_pos(1074);
    lemma_rounded_order(u * u, 2 * u, h, 1);
    lemma_rounded_order(h, 1, u * u, 2 * u);
    // one over a half in units is 2 u / 1
    let two = (2 * u) as nat;
    assert((u * u) * 1 == two * h) by (nonlinear_arith)
        requires
            u == 2 * h,
            two == 2 * u,
    ;
    lemma_rounded_order(u * u, h, two, 1);
    lemma_rounded_order(two, 1, u * u, h);
    lemma_rounded_exact(whole(2).magnitude());
}

/// Whatever the configuration asks for, the long-run rate is at most the hard ceiling.
pub proof fn lemma_rate_ceiling(g: Gate)
    requires
        g.wf(),
    ensures
        at_most(g.rate(), whole(HARD_CEILING_PER_SEC as int)),
{
    lemma_half();
    lemma_whole_exact(1);
    lemma_whole_exact(2);
    lemma_pow2_pos(1073);
    let half = quotient(whole(1), whole(2));
    let gap = g.min_gap;
    let r = quotient(whole(1), gap);
    assert(at_most(r, whole(2))) by {
        if gap.infinite() {
            assert(r.magnitude() == 0);
        } else {
            lemma_order(half, gap);
            assert(!gap.negative()) by {
                if gap.negative() {
                    assert(gap.units() <= 0);
                }
            }
            assert(gap.size() >= pow2(1073));
            assert(gap.magnitude() != 0) by {
                assert(magnitude_units(0) == 0);
            }
            let u = one();
            assert(u * u * pow2(1073) <= u * u * gap.size()) by (nonlinear_arith)
                requires
                    gap.size() >= pow2(1073),
                    u * u >= 0,
            ;
            lemma_rounded_order(u * u, gap.size(), u * u, pow2(1073));
        }
    }
}

// ---------------------------------------------------------------- the stamps

/// A text without the given characters at its front.
pub open spec fn without_front(s: Seq<char>, c: char) -> Seq<char>
    decreases s.len(),
{
    if s.len() > 0 && s[0] == c {
        without_front(s.skip(1), c)
    } else {
        s
    }
}

/// A text without the given characters at its back.
pub open spec fn without_back(s: Seq<char>, c: char) -> Seq<char>
    decreases s.len(),
{
    if s.len() > 0 && s.last() == c {
        without_back(s.drop_last(), c)
    } else {
        s
    }
}

/// The numbers among the first `k` fields.
pub open spec fn numbers_in(fields: Seq<Seq<char>>, k: int) -> Seq<Double>
    decreases k,
{
    if k <= 0 {
        seq![]
    } else {
        match parsed(trimmed(fields[k - 1])) {
            Some(x) => numbers_in(fields, k - 1).push(x),
            None => numbers_in(fields, k - 1),
        }
    }
}

/// The stamps that a text lists between brackets.
pub open spec fn stamps_in(raw: Seq<char>) -> Seq<Double> {
    let inner = without_back(without_front(trimmed(raw), '['), ']');
    let fields = split(inner, ',');
    numbers_in(fields, fields.len() as int)
}

/// Stamps as they are listed, with three places.
pub open spec fn stamp_texts(v: Seq<Double>) -> Seq<Seq<char>> {
    Seq::new(v.len(), |i: int| fixed(v[i], 3))
}

/// Stamps between brackets.
pub open spec fn stamps_text(v: Seq<Double>) -> Seq<char> {
    seq!['['] + listed(stamp_texts(v)) + seq![']']
}

pub(crate) fn skip_front(s: &[char], c: char) -> (r: &[char])
    ensures
        r@ == without_front(s@, c),
{
    let mut i: usize = 0;
    assert(s@.skip(0) =~= s@);
    while i < s.len() && s[i] == c
        invariant
            i <= s@.len(),
            without_front(s@, c) == without_front(s@.skip(i as int), c),
        decreases s@.len() - i,
    {
        assert(s@.skip(i as int).skip(1) =~= s@.skip(i + 1));
        i = i + 1;
    }
    let r = part(s, i, s.len());
    assert(r@ =~= s@.skip(i as int));
    r
}

fn skip_back(s: &[char], c: char) -> (r: &[char])
    ensures
        r@ == without_back(s@, c),
{
    let mut i: usize = s.len();
    assert(s@.take(s@.len() as int) =~= s@);
    while i > 0 && s[i - 1] == c
        invariant
            i <= s@.len(),
            without_back(s@, c) == without_back(s@.take(i as int), c),
        decreases i,
    {
        assert(s@.take(i as int).drop_last() =~= s@.take(i - 1));
        i = i - 1;
    }
    let r = part(s, 0, i);
    assert(r@ =~= s@.take(i as int));
    r
}

/// The stamps that a text lists between brackets.
pub fn parse_stamps(raw: &str) -> (r: Vec<Double>)
    ensures
        r@ == stamps_in(raw@),
{
    let v = chars_of(raw);
    let inner = skip_back(skip_front(trim(v.as_slice()), '['), ']');
    let fields = split_at(inner, ',');
    let ghost all = split(inner@, ',');
    let mut out: Vec<Double> = Vec::new();
    let mut k: usize = 0;
    assert(out@ =~= numbers_in(all, 0));
    while k < fields.len()
        invariant
            k <= fields@.len(),
            all == texts(fields@),
            out@ == numbers_in(all, k as int),
        decreases fields@.len() - k,
    {
        assert(all[k as int] == fields@[k as int]@);
        if let Some(x) = parse_double(trim(fields[k].as_slice())) {
            out.push(x);
        }
        k = k + 1;
    }
    out
}

/// Stamps between brackets, with three places.
pub fn render_stamps(v: &[Double]) -> (r: String)
    ensures
        r@ == stamps_text(v@),
{
    let mut s = String::new();
    s.push('[');
    let ghost all = stamp_texts(v@);
    let mut i: usize = 0;
    assert(s@ =~= seq!['['] + listed(all.take(0)));
    while i < v.len()
        invariant
            i <= v@.len(),
            all == stamp_texts(v@),
            s@ == seq!['['] + listed(all.take(i as int)),
        decreases v@.len() - i,
    {
        let ghost ts = all.take(i as int);
        if i > 0 {
            s.push(',');
        }
        s.append(fixed_text(v[i], 3).as_str());
        proof {
            let t = fixed(v@[i as int], 3);
            crate::json::lemma_listed_push(ts, t);
            assert(all.take(i + 1) =~= ts.push(t));
            assert(s@ =~= seq!['['] + listed(ts.push(t)));
        }
        i = i + 1;
    }
    s.push(']');
    proof {
        assert(all.take(all.len() as int) =~= all);
        assert(s@ =~= stamps_text(v@));
    }
    s
}

// ---------------------------------------------------------------- taking a slot

/// Whether stamp `x` is less than `span` before `t`.
pub open spec fn is_within(t: Double, x: Double, span: Double) -> bool {
    less(difference(t, x), span)
}

/// Those of the first `k` stamps that are less than `span` before `t`.
pub open spec fn within_span(h: Seq<Double>, t: Double, span: Double, k: int) -> Seq<Double>
    decreases k,
{
    if k <= 0 {
        seq![]
    } else if is_within(t, h[k - 1], span) {
        within_span(h, t, span, k - 1).push(h[k - 1])
    } else {
        within_span(h, t, span, k - 1)
    }
}

/// The number of stamps for which there is always room.
pub const STAMPS_KEPT: usize = 200;

impl Gate {
    /// How long a stamp matters: three windows, and never less than the least gap.
    pub open spec fn memory(self) -> Double {
        larger(self.min_gap, product(self.window, whole(3)))
    }

    /// The number of stamps that are kept at most: never fewer than may be in a window.
    pub open spec fn room(self) -> int {
        if self.max_per_window > STAMPS_KEPT {
            self.max_per_window as int
        } else {
            STAMPS_KEPT as int
        }
    }
}

/// The stamps that still matter at `t`, the last of them where there are too many.
pub open spec fn kept(g: Gate, h: Seq<Double>, t: Double) -> Seq<Double> {
    let w = within_span(h, t, g.memory(), h.len() as int);
    if w.len() > g.room() {
        w.skip(w.len() - g.room())
    } else {
        w
    }
}

/// The latest of the first `k` stamps, `k` being one at least.
pub open spec fn latest(h: Seq<Double>, k: int) -> Double
    decreases k,
{
    if k <= 1 {
        h[0]
    } else if at_most(latest(h, k - 1), h[k - 1]) {
        h[k - 1]
    } else {
        latest(h, k - 1)
    }
}

/// The earliest of the first `k` stamps.
pub open spec fn earliest(h: Seq<Double>, k: int) -> Double
    decreases k,
{
    if k <= 0 {
        with_sign(false, INF as nat)
    } else {
        smaller(earliest(h, k - 1), h[k - 1])
    }
}

/// How long to wait at `t` for the gap after the latest of the stamps.
pub open spec fn gap_wait(g: Gate, h: Seq<Double>, t: Double) -> Double {
    if h.len() == 0 {
        whole(0)
    } else {
        larger(whole(0), difference(g.min_gap, difference(t, latest(h, h.len() as int))))
    }
}

/// How long to wait at `t`, where `h` are the stamps that still matter.
pub open spec fn wait_at(g: Gate, h: Seq<Double>, t: Double) -> Double {
    let recent = within_span(h, t, g.window, h.len() as int);
    if recent.len() >= g.max_per_window {
        larger(
            gap_wait(g, h, t),
            difference(g.window, difference(t, earliest(recent, recent.len() as int))),
        )
    } else {
        gap_wait(g, h, t)
    }
}

/// What the rate gate says to a request for a connection.
pub enum Verdict {
    /// Wait that many seconds, then ask again.
    Wait(Double),
    /// Go ahead, once this is the new list of stamps.
    Taken(String),
}

fn select(h: &[Double], t: Double, span: Double) -> (r: Vec<Double>)
    ensures
        r@ == within_span(h@, t, span, h@.len() as int),
{
    let mut out: Vec<Double> = Vec::new();
    let mut k: usize = 0;
    assert(out@ =~= within_span(h@, t, span, 0));
    while k < h.len()
        invariant
            k <= h@.len(),
            out@ == within_span(h@, t, span, k as int),
        decreases h@.len() - k,
    {
        if t.minus(h[k]).lt(span) {
            out.push(h[k]);
        }
        k = k + 1;
    }
    out
}

fn latest_of(h: &[Double]) -> (r: Double)
    requires
        h@.len() > 0,
    ensures
        r == latest(h@, h@.len() as int),
{
    let mut r: Double = h[0];
    let mut k: usize = 1;
    while k < h.len()
        invariant
            1 <= k <= h@.len(),
            r == latest(h@, k as int),
        decreases h@.len() - k,
    {
        if r.le(h[k]) {
            r = h[k];
        }
        k = k + 1;
    }
    r
}

fn earliest_of(h: &[Double]) -> (r: Double)
    ensures
        r == earliest(h@, h@.len() as int),
{
    let mut r: Double = assemble(false, INF);
    let mut k: usize = 0;
    while k < h.len()
        invariant
            k <= h@.len(),
            r == earliest(h@, k as int),
        decreases h@.len() - k,
    {
        r = r.min(h[k]);
        k = k + 1;
    }
    r
}

fn keep(h: Vec<Double>, room: usize) -> (r: Vec<Double>)
    ensures
        r@ == if h@.len() > room {
            h@.skip(h@.len() - room)
        } else {
            h@
        },
{
    if h.len() <= room {
        return h;
    }
    let cut: usize = h.len() - room;
    let mut out: Vec<Double> = Vec::new();
    let mut i: usize = cut;
    while i < h.len()
        invariant
            cut <= i <= h@.len(),
            out@ == h@.subrange(cut as int, i as int),
        decreases h@.len() - i,
    {
        assert(h@.subrange(cut as int, i + 1) =~= h@.subrange(cut as int, i as int).push(
            h@[i as int],
        ));
        out.push(h[i]);
        i = i + 1;
    }
    assert(out@ =~= h@.skip(cut as int));
    out
}

impl Gate {
    /// What the rate gate says at `t` to a request for a connection, where `raw` is the list of
    /// stamps. The list is to be read and written under one lock, so that the limits hold
    /// across processes.
    pub fn try_take(&self, raw: &str, t: Double) -> (r: Verdict)
        ensures
            ({
                let h = kept(*self, stamps_in(raw@), t);
                let wait = wait_at(*self, h, t);
                match r {
                    Verdict::Wait(w) => less(whole(0), wait) && w == wait,
                    Verdict::Taken(s) => !less(whole(0), wait) && s@ == stamps_text(h.push(t)),
                }
            }),
    {
        let all = parse_stamps(raw);
        let memory = self.min_gap.max(self.window.times(Double::from_u64(3)));
        let room: usize = if self.max_per_window > STAMPS_KEPT {
            self.max_per_window
        } else {
            STAMPS_KEPT
        };
        let mut h = keep(select(all.as_slice(), t, memory), room);
        let zero = Double::from_u64(0);
        let mut wait = zero;
        if h.len() > 0 {
            wait = wait.max(self.min_gap.minus(t.minus(latest_of(h.as_slice()))));
        }
        let recent = select(h.as_slice(), t, self.window);
        if recent.len() >= self.max_per_window {
            wait = wait.max(self.window.minus(t.minus(earliest_of(recent.as_slice()))));
        }
        if zero.lt(wait) {
            return Verdict::Wait(wait);
        }
        h.push(t);
        Verdict::Taken(render_stamps(h.as_slice()))
    }
}

// ---------------------------------------------------------------- the two rules

proof fn lemma_negated(y: Double)
    ensures
        negated(y).units() == -y.units(),
        negated(y).finite() == y.finite(),
        negated(y).infinite() == y.infinite(),
        negated(y).nan() == y.nan(),
        negated(y).negative() == !y.negative(),
        negated(y).magnitude() == y.magnitude(),
{
}

/// A difference is positive just where what is taken away is the smaller.
proof fn lemma_positive_difference(w: Double, d: Double)
    requires
        !w.nan(),
        !d.nan(),
    ensures
        less(d, w) <==> less(whole(0), difference(w, d)),
{
    lemma_negated(d);
    lemma_whole_exact(0);
    assert(whole(0).rank() == 0) by {
        if whole(0).magnitude() > 0 {
            lemma_magnitude_order(0, whole(0).magnitude());
        }
    }
    if less(d, w) {
        if w.finite() && d.finite() {
            lemma_order(d, w);
            let u = w.units() - d.units();
            lemma_rounded_exact(1);
            assert(magnitude_units(1) == 1);
            lemma_rounded_order(1, 1, u as nat, 1);
        }
    } else if w.finite() && d.finite() {
        lemma_order(d, w);
        assert(difference(w, d).rank() <= 0);
    }
}

proof fn lemma_larger_positive(a: Double, b: Double)
    ensures
        less(whole(0), a) ==> less(whole(0), larger(a, b)),
        less(whole(0), b) ==> less(whole(0), larger(a, b)),
{
}

/// Taking away more leaves no more.
pub(crate) proof fn lemma_difference_order(t: Double, x: Double, l: Double)
    requires
        at_most(x, l),
        !difference(t, x).nan(),
        !difference(t, l).nan(),
    ensures
        at_most(difference(t, l), difference(t, x)),
{
    lemma_negated(x);
    lemma_negated(l);
    if t.finite() && x.finite() && l.finite() {
        lemma_order(x, l);
        let a = t.units() - l.units();
        let b = t.units() - x.units();
        assert(a <= b);
        if a > 0 {
            lemma_rounded_order(a as nat, 1, b as nat, 1);
        } else if b < 0 {
            lemma_rounded_order((-b) as nat, 1, (-a) as nat, 1);
        }
    }
}

proof fn lemma_within_span(h: Seq<Double>, t: Double, span: Double, k: int)
    requires
        k <= h.len(),
    ensures
        forall|i: int|
            0 <= i < within_span(h, t, span, k).len() ==> is_within(
                t,
                #[trigger] within_span(h, t, span, k)[i],
                span,
            ),
    decreases k,
{
    if k > 0 {
        lemma_within_span(h, t, span, k - 1);
        let p = within_span(h, t, span, k - 1);
        let w = within_span(h, t, span, k);
        assert forall|i: int| 0 <= i < w.len() implies is_within(t, #[trigger] w[i], span) by {
            if i < p.len() {
                assert(w[i] == p[i]);
            }
        }
    }
}

proof fn lemma_latest(h: Seq<Double>, k: int)
    requires
        1 <= k <= h.len(),
        forall|i: int| 0 <= i < h.len() ==> !(#[trigger] h[i]).nan(),
    ensures
        forall|i: int| 0 <= i < k ==> at_most(#[trigger] h[i], latest(h, k)),
        exists|i: int| 0 <= i < k && #[trigger] h[i] == latest(h, k),
    decreases k,
{
    if k > 1 {
        lemma_latest(h, k - 1);
        if at_most(latest(h, k - 1), h[k - 1]) {
            assert(h[k - 1] == latest(h, k));
        }
    } else {
        assert(h[0] == latest(h, k));
    }
}

proof fn lemma_earliest(h: Seq<Double>, k: int)
    requires
        1 <= k <= h.len(),
        forall|i: int| 0 <= i < h.len() ==> !(#[trigger] h[i]).nan(),
    ensures
        exists|i: int| 0 <= i < k && #[trigger] h[i] == earliest(h, k),
    decreases k,
{
    let inf = with_sign(false, INF as nat);
    if k > 1 {
        lemma_earliest(h, k - 1);
        if less(h[k - 1], earliest(h, k - 1)) {
            assert(h[k - 1] == earliest(h, k));
        }
    } else {
        assert(earliest(h, 0) == inf);
        assert(h[0] == earliest(h, 1)) by {
            if !less(h[0], inf) {
                assert(h[0] == inf);
            }
        }
    }
}

proof fn lemma_not_nan(h: Seq<Double>, t: Double, span: Double)
    requires
        forall|i: int| 0 <= i < h.len() ==> is_within(t, #[trigger] h[i], span),
    ensures
        forall|i: int| 0 <= i < h.len() ==> !(#[trigger] h[i]).nan() && !difference(t, h[i]).nan(),
{
}

pub(crate) proof fn lemma_kept(g: Gate, all: Seq<Double>, t: Double)
    ensures
        forall|i: int|
            0 <= i < kept(g, all, t).len() ==> is_within(
                t,
                #[trigger] kept(g, all, t)[i],
                g.memory(),
            ),
{
    let w = within_span(all, t, g.memory(), all.len() as int);
    lemma_within_span(all, t, g.memory(), all.len() as int);
    assert forall|i: int| 0 <= i < kept(g, all, t).len() implies is_within(
        t,
        #[trigger] kept(g, all, t)[i],
        g.memory(),
    ) by {
        if w.len() > g.room() {
            assert(kept(g, all, t)[i] == w[i + (w.len() - g.room())]);
        } else {
            assert(kept(g, all, t)[i] == w[i]);
        }
    }
}

/// The first rule: where the rate gate lets a connection through, every stamp that still matters is
/// at least the least gap back.
pub proof fn lemma_gap_holds(g: Gate, all: Seq<Double>, t: Double, i: int)
    requires
        g.wf(),
        !less(whole(0), wait_at(g, kept(g, all, t), t)),
        0 <= i < kept(g, all, t).len(),
    ensures
        at_most(g.min_gap, difference(t, kept(g, all, t)[i])),
{
    let h = kept(g, all, t);
    let n = h.len() as int;
    lemma_kept(g, all, t);
    lemma_not_nan(h, t, g.memory());
    lemma_latest(h, n);
    let l = latest(h, n);
    let j = choose|j: int| 0 <= j < n && #[trigger] h[j] == l;
    let d = difference(t, l);
    assert(!difference(t, h[j]).nan());
    let recent = within_span(h, t, g.window, n);
    lemma_larger_positive(
        gap_wait(g, h, t),
        difference(g.window, difference(t, earliest(recent, recent.len() as int))),
    );
    lemma_larger_positive(whole(0), difference(g.min_gap, d));
    lemma_positive_difference(g.min_gap, d);
    assert(at_most(g.min_gap, d));
    assert(at_most(h[i], l));
    lemma_difference_order(t, h[i], l);
}

/// The second rule: where the rate gate lets a connection through, fewer of the stamps that still
/// matter are less than a window back than may be in one.
pub proof fn lemma_window_holds(g: Gate, all: Seq<Double>, t: Double)
    requires
        g.wf(),
        !less(whole(0), wait_at(g, kept(g, all, t), t)),
    ensures
        ({
            let h = kept(g, all, t);
            within_span(h, t, g.window, h.len() as int).len() < g.max_per_window
        }),
{
    let h = kept(g, all, t);
    let recent = within_span(h, t, g.window, h.len() as int);
    let n = recent.len() as int;
    if n >= g.max_per_window {
        lemma_within_span(h, t, g.window, h.len() as int);
        lemma_not_nan(recent, t, g.window);
        lemma_earliest(recent, n);
        let j = choose|j: int| 0 <= j < n && #[trigger] recent[j] == earliest(recent, n);
        let d = difference(t, recent[j]);
        assert(is_within(t, recent[j], g.window));
        lemma_positive_difference(g.window, d);
        lemma_larger_positive(gap_wait(g, h, t), difference(g.window, d));
    }
}

/// A stamp matters for the least gap and for a window at least.
pub(crate) proof fn lemma_memory(g: Gate)
    requires
        g.wf(),
    ensures
        at_most(g.min_gap, g.memory()),
        at_most(g.window, g.memory()),
{
    lemma_three_windows(g.window);
}

proof fn lemma_three_windows(window: Double)
    requires
        at_most(whole(1), window),
    ensures
        at_most(window, product(window, whole(3))),
{
    lemma_whole_exact(1);
    lemma_whole_exact(3);
    lemma_pow2_pos(1074);
    let three = whole(3);
    assert(three.magnitude() != 0) by {
        assert(magnitude_units(0) == 0);
    }
    if window.finite() {
        lemma_order(whole(1), window);
        let s = window.size();
        let u = one();
        assert(1 * u == u);
        assert(window.units() >= u);
        assert(!window.negative()) by {
            if window.negative() {
                assert(window.units() <= 0);
            }
        }
        assert(three.size() == 3 * u);
        assert(s * u <= s * (3 * u) * 1) by (nonlinear_arith)
            requires
                s >= 0,
                u >= 0,
        ;
        lemma_rounded_order(s, 1, s * (3 * u) as nat, u);
        lemma_rounded_exact(window.magnitude());
    }
}

proof fn lemma_within_both(h: Seq<Double>, t: Double, a: Double, b: Double, k: int)
    requires
        at_most(a, b),
        0 <= k <= h.len(),
    ensures
        ({
            let w = within_span(h, t, b, k);
            within_span(w, t, a, w.len() as int) == within_span(h, t, a, k)
        }),
    decreases k,
{
    if k > 0 {
        lemma_within_both(h, t, a, b, k - 1);
        let w = within_span(h, t, b, k - 1);
        let x = h[k - 1];
        if is_within(t, x, b) {
            let v = w.push(x);
            lemma_within_prefix(v, w, t, a, w.len() as int);
        }
    }
}

proof fn lemma_within_prefix(v: Seq<Double>, w: Seq<Double>, t: Double, a: Double, k: int)
    requires
        0 <= k <= w.len() <= v.len(),
        forall|i: int| 0 <= i < w.len() ==> v[i] == w[i],
    ensures
        within_span(v, t, a, k) == within_span(w, t, a, k),
    decreases k,
{
    if k > 0 {
        lemma_within_prefix(v, w, t, a, k - 1);
    }
}

/// As long as no stamps have to be dropped, the second rule holds of the whole list: at a
/// connection that is let through, fewer of all stamps are less than a window back than may be
/// in one.
pub proof fn lemma_window_holds_of_all(g: Gate, all: Seq<Double>, t: Double)
    requires
        g.wf(),
        !less(whole(0), wait_at(g, kept(g, all, t), t)),
        within_span(all, t, g.memory(), all.len() as int).len() <= g.room(),
    ensures
        within_span(all, t, g.window, all.len() as int).len() < g.max_per_window,
{
    lemma_window_holds(g, all, t);
    lemma_memory(g);
    lemma_within_both(all, t, g.window, g.memory(), all.len() as int);
}

/// Each stamp within a span is among those selected, and each of those is one of the stamps.
proof fn lemma_selected(h: Seq<Double>, t: Double, span: Double, k: int)
    requires
        0 <= k <= h.len(),
    ensures
        forall|i: int|
            0 <= i < k && is_within(t, #[trigger] h[i], span) ==> within_span(
                h,
                t,
                span,
                k,
            ).contains(h[i]),
        forall|j: int|
            0 <= j < within_span(h, t, span, k).len() ==> h.contains(
                #[trigger] within_span(h, t, span, k)[j],
            ),
    decreases k,
{
    if k > 0 {
        lemma_selected(h, t, span, k - 1);
        let p = within_span(h, t, span, k - 1);
        let w = within_span(h, t, span, k);
        assert forall|i: int| 0 <= i < k && is_within(t, #[trigger] h[i], span) implies w.contains(
            h[i],
        ) by {
            if i < k - 1 {
                assert(p.contains(h[i]));
                let j = choose|j: int| 0 <= j < p.len() && p[j] == h[i];
                assert(w[j] == h[i]);
            } else {
                assert(w[w.len() - 1] == h[i]);
            }
        }
        assert forall|j: int| 0 <= j < w.len() implies h.contains(#[trigger] w[j]) by {
            if j < p.len() {
                assert(w[j] == p[j]);
            } else {
                assert(w[j] == h[k - 1]);
            }
        }
    }
}

/// Both rules and nothing else: as long as no stamps have to be dropped, a request has to wait
/// just where some stamp is less than the least gap back, or as many as may be in a window are
/// less than a window back.
pub proof fn lemma_waits(g: Gate, all: Seq<Double>, t: Double)
    requires
        g.wf(),
        within_span(all, t, g.memory(), all.len() as int).len() <= g.room(),
    ensures
        less(whole(0), wait_at(g, kept(g, all, t), t)) <==> {
            ||| exists|i: int| 0 <= i < all.len() && is_within(t, #[trigger] all[i], g.min_gap)
            ||| within_span(all, t, g.window, all.len() as int).len() >= g.max_per_window
        },
{
    let h = kept(g, all, t);
    let n = h.len() as int;
    lemma_memory(g);
    lemma_selected(all, t, g.memory(), all.len() as int);
    if !less(whole(0), wait_at(g, h, t)) {
        lemma_window_holds_of_all(g, all, t);
        assert forall|i: int| 0 <= i < all.len() implies !is_within(
            t,
            #[trigger] all[i],
            g.min_gap,
        ) by {
            if is_within(t, all[i], g.min_gap) {
                assert(is_within(t, all[i], g.memory()));
                assert(h.contains(all[i]));
                let j = choose|j: int| 0 <= j < n && h[j] == all[i];
                lemma_gap_holds(g, all, t, j);
            }
        }
    } else if within_span(all, t, g.window, all.len() as int).len() < g.max_per_window {
        lemma_within_both(all, t, g.window, g.memory(), all.len() as int);
        lemma_kept(g, all, t);
        lemma_not_nan(h, t, g.memory());
        assert(less(whole(0), gap_wait(g, h, t)));
        assert(n > 0);
        lemma_latest(h, n);
        let j = choose|j: int| 0 <= j < n && #[trigger] h[j] == latest(h, n);
        assert(!difference(t, h[j]).nan());
        lemma_positive_difference(g.min_gap, difference(t, h[j]));
        assert(all.contains(h[j]));
        let i = choose|i: int| 0 <= i < all.len() && all[i] == h[j];
        assert(is_within(t, all[i], g.min_gap));
    }
}

// ---------------------------------------------------------------- waiting and peaks

/// How long to sleep before asking again: what the rate gate said, five seconds at most, and a
/// hundredth more.
pub fn nap(wait: Double) -> (r: Double)
    ensures
        r == sum(smaller(wait, whole(5)), dec(1, -2)),
{
    wait.min(Double::from_u64(5)).plus(literal(1, -2))
}

/// What is done about a request for a connection.
pub enum Turn {
    /// Connect.
    Go,
    /// Sleep that many seconds, then connect.
    GoAfter(Double),
    /// Sleep that many seconds, then ask again.
    AskAfter(Double),
}

impl Gate {
    /// What is done once the rate gate has spoken, or could not be asked. A list that cannot be
    /// read or written must not set connections free: the gap is kept all the same.
    pub fn acquire(&self, verdict: Option<&Verdict>) -> (r: Turn)
        ensures
            match verdict {
                Some(Verdict::Taken(_)) => r is Go,
                Some(Verdict::Wait(w)) => r == Turn::AskAfter(
                    sum(smaller(*w, whole(5)), dec(1, -2)),
                ),
                None => r == Turn::GoAfter(self.min_gap),
            },
    {
        match verdict {
            Some(Verdict::Taken(_)) => Turn::Go,
            Some(Verdict::Wait(w)) => Turn::AskAfter(nap(*w)),
            None => Turn::GoAfter(self.min_gap),
        }
    }
}

/// The stamps with one more, after all that are not later.
pub open spec fn insert_stamp(s: Seq<Double>, x: Double) -> Seq<Double>
    decreases s.len(),
{
    if s.len() == 0 {
        seq![x]
    } else if less(x, s.last()) {
        insert_stamp(s.drop_last(), x).push(s.last())
    } else {
        s.push(x)
    }
}

/// The stamps in the order of time, those of one time as they came.
pub open spec fn in_order(h: Seq<Double>) -> Seq<Double>
    decreases h.len(),
{
    if h.len() == 0 {
        seq![]
    } else {
        insert_stamp(in_order(h.drop_last()), h.last())
    }
}

/// The first stamp, from `j` on, that is no more than a second before stamp `i`.
pub open spec fn second_start(s: Seq<Double>, i: int, j: int) -> int
    decreases i - j,
{
    if j < i && less(whole(1), difference(s[i], s[j])) {
        second_start(s, i, j + 1)
    } else {
        j
    }
}

/// Over the first `k` stamps: the largest number in a second, and where the last second starts.
pub open spec fn peak_over(s: Seq<Double>, k: int) -> (int, int)
    decreases k,
{
    if k <= 0 {
        (0, 0)
    } else {
        let (p, j) = peak_over(s, k - 1);
        let b = second_start(s, k - 1, j);
        let n = k - b;
        (
            if n > p {
                n
            } else {
                p
            },
            b,
        )
    }
}

/// Whether stamps can be put in order: all are numbers, or there is one at most.
pub open spec fn is_sortable(h: Seq<Double>) -> bool {
    h.len() < 2 || forall|i: int| 0 <= i < h.len() ==> !(#[trigger] h[i]).nan()
}

/// Whether stamps can be put in order.
pub fn sortable(h: &[Double]) -> (r: bool)
    ensures
        r == is_sortable(h@),
{
    if h.len() < 2 {
        return true;
    }
    let mut i: usize = 0;
    while i < h.len()
        invariant
            i <= h@.len(),
            h@.len() >= 2,
            forall|k: int| 0 <= k < i ==> !(#[trigger] h@[k]).nan(),
        decreases h@.len() - i,
    {
        if h[i].is_nan() {
            assert(h@[i as int].nan());
            return false;
        }
        i = i + 1;
    }
    true
}

proof fn lemma_insert_stamp(s: Seq<Double>, x: Double, at: int)
    requires
        0 <= at <= s.len(),
        at > 0 ==> !less(x, s[at - 1]),
        forall|j: int| at <= j < s.len() ==> less(x, #[trigger] s[j]),
    ensures
        insert_stamp(s, x) == s.insert(at, x),
    decreases s.len(),
{
    if at == s.len() {
        assert(s.insert(at, x) =~= s.push(x));
        if s.len() == 0 {
            assert(seq![x] =~= s.push(x));
        }
    } else {
        let init = s.drop_last();
        assert(less(x, s[s.len() - 1]));
        assert forall|j: int| at <= j < init.len() implies less(x, #[trigger] init[j]) by {
            assert(init[j] == s[j]);
        }
        lemma_insert_stamp(init, x, at);
        assert(init.insert(at, x).push(s.last()) =~= s.insert(at, x));
    }
}

fn sort_stamps(h: &[Double]) -> (r: Vec<Double>)
    ensures
        r@ == in_order(h@),
{
    let mut out: Vec<Double> = Vec::new();
    let mut k: usize = 0;
    assert(out@ =~= in_order(h@.take(0)));
    while k < h.len()
        invariant
            k <= h@.len(),
            out@ == in_order(h@.take(k as int)),
        decreases h@.len() - k,
    {
        let x: Double = h[k];
        let mut at: usize = out.len();
        while at > 0 && x.lt(out[at - 1])
            invariant
                at <= out@.len(),
                forall|j: int| at <= j < out@.len() ==> less(x, #[trigger] out@[j]),
            decreases at,
        {
            at = at - 1;
        }
        proof {
            lemma_insert_stamp(out@, x, at as int);
            assert(h@.take(k + 1).drop_last() =~= h@.take(k as int));
        }
        out.insert(at, x);
        k = k + 1;
    }
    assert(h@.take(h@.len() as int) =~= h@);
    out
}

/// The largest number of connections in any second.
pub fn peak_per_sec(hist: Vec<Double>) -> (r: usize)
    requires
        is_sortable(hist@),
    ensures
        r == peak_over(in_order(hist@), hist@.len() as int).0,
{
    let s = sort_stamps(hist.as_slice());
    let one = Double::from_u64(1);
    let mut peak: usize = 0;
    let mut j: usize = 0;
    let mut i: usize = 0;
    proof {
        lemma_in_order_len(hist@);
    }
    while i < s.len()
        invariant
            i <= s@.len(),
            j <= i,
            peak <= i,
            one == whole(1),
            peak == peak_over(s@, i as int).0,
            j == peak_over(s@, i as int).1,
        decreases s@.len() - i,
    {
        let ghost from = j as int;
        while j < i && one.lt(s[i].minus(s[j]))
            invariant
                j <= i < s@.len(),
                one == whole(1),
                second_start(s@, i as int, from) == second_start(s@, i as int, j as int),
            decreases i - j,
        {
            j = j + 1;
        }
        let n: usize = i - j + 1;
        if n > peak {
            peak = n;
        }
        i = i + 1;
    }
    peak
}

proof fn lemma_in_order_len(h: Seq<Double>)
    ensures
        in_order(h).len() == h.len(),
    decreases h.len(),
{
    if h.len() > 0 {
        lemma_in_order_len(h.drop_last());
        lemma_insert_len(in_order(h.drop_last()), h.last());
    }
}

proof fn lemma_insert_len(s: Seq<Double>, x: Double)
    ensures
        insert_stamp(s, x).len() == s.len() + 1,
    decreases s.len(),
{
    if s.len() > 0 && less(x, s.last()) {
        lemma_insert_len(s.drop_last(), x);
    }
}

/// Whether the stamps are finite and in the order of time.
pub open spec fn is_timeline(s: Seq<Double>) -> bool {
    &&& forall|i: int| 0 <= i < s.len() ==> (#[trigger] s[i]).finite()
    &&& forall|i: int, j: int| 0 <= i <= j < s.len() ==> at_most(#[trigger] s[i], #[trigger] s[j])
}

/// A difference of finite numbers is a number, and taking from more leaves no less.
pub(crate) proof fn lemma_difference_from(a: Double, b: Double, y: Double)
    requires
        a.finite(),
        b.finite(),
        y.finite(),
        at_most(a, b),
    ensures
        at_most(difference(a, y), difference(b, y)),
{
    lemma_negated(y);
    lemma_order(a, b);
    let p = a.units() - y.units();
    let q = b.units() - y.units();
    if p > 0 {
        lemma_rounded_order(p as nat, 1, q as nat, 1);
    } else if q < 0 {
        lemma_rounded_order((-q) as nat, 1, (-p) as nat, 1);
    }
}

proof fn lemma_second_start(s: Seq<Double>, i: int, from: int, j: int)
    requires
        is_timeline(s),
        0 <= from <= j <= i < s.len(),
        !less(whole(1), difference(s[i], s[j])),
    ensures
        from <= second_start(s, i, from) <= j,
    decreases j - from,
{
    if from < j && less(whole(1), difference(s[i], s[from])) {
        lemma_second_start(s, i, from + 1, j);
    }
}

proof fn lemma_peak_start(s: Seq<Double>, k: int, i: int, j: int)
    requires
        is_timeline(s),
        0 <= k <= i < s.len(),
        0 <= j <= i,
        !less(whole(1), difference(s[i], s[j])),
    ensures
        0 <= peak_over(s, k).1,
        peak_over(s, k).1 <= j || peak_over(s, k).1 <= 0,
        k > 0 ==> peak_over(s, k).1 < k,
    decreases k,
{
    if k > 0 {
        lemma_peak_start(s, k - 1, i, j);
        let b = peak_over(s, k - 1).1;
        // stamp k - 1 is no later than stamp i, so it is no more than a second after stamp j
        if j <= k - 1 {
            lemma_difference_from(s[k - 1], s[i], s[j]);
            assert(at_most(difference(s[k - 1], s[j]), difference(s[i], s[j])));
            lemma_second_start(s, k - 1, if b <= j {
                b
            } else {
                0
            }, j);
        } else {
            lemma_own_second(s[k - 1]);
            lemma_second_start(s, k - 1, b, k - 1);
        }
    }
}

proof fn lemma_own_second(x: Double)
    requires
        x.finite(),
    ensures
        !less(whole(1), difference(x, x)),
{
    lemma_negated(x);
    lemma_whole_exact(1);
    assert(difference(x, x).magnitude() == 0);
}

proof fn lemma_peak_grows(s: Seq<Double>, a: int, b: int)
    requires
        0 <= a <= b,
    ensures
        peak_over(s, a).0 <= peak_over(s, b).0,
    decreases b,
{
    if a < b {
        lemma_peak_grows(s, a, b - 1);
    }
}

/// No second has more connections than the peak.
pub proof fn lemma_peak_covers(s: Seq<Double>, i: int, j: int)
    requires
        is_timeline(s),
        0 <= j <= i < s.len(),
        !less(whole(1), difference(s[i], s[j])),
    ensures
        i - j + 1 <= peak_over(s, s.len() as int).0,
{
    lemma_peak_start(s, i, i, j);
    let b = peak_over(s, i).1;
    lemma_second_start(s, i, b, j);
    lemma_peak_grows(s, i + 1, s.len() as int);
}

/// Some second has as many connections as the peak.
pub proof fn lemma_peak_attained(s: Seq<Double>, k: int)
    requires
        is_timeline(s),
        0 < k <= s.len(),
    ensures
        exists|i: int, j: int|
            #![trigger s[i], s[j]]
            0 <= j <= i < k && !less(whole(1), difference(s[i], s[j])) && i - j + 1 == peak_over(
                s,
                k,
            ).0,
    decreases k,
{
    lemma_own_second(s[k - 1]);
    lemma_peak_start(s, k - 1, k - 1, k - 1);
    let j = peak_over(s, k - 1).1;
    let b = second_start(s, k - 1, j);
    lemma_second_start(s, k - 1, j, k - 1);
    lemma_start_is_near(s, k - 1, j);
    let n = k - b;
    if k == 1 || n > peak_over(s, k - 1).0 {
        let i = k - 1;
        assert(0 <= b <= i < k && !less(whole(1), difference(s[i], s[b])) && i - b + 1
            == peak_over(s, k).0);
    } else {
        lemma_peak_attained(s, k - 1);
        let (i, j) = choose|i: int, j: int|
            #![trigger s[i], s[j]]
            0 <= j <= i < k - 1 && !less(whole(1), difference(s[i], s[j])) && i - j + 1
                == peak_over(s, k - 1).0;
        assert(s[i] == s[i] && s[j] == s[j]);
    }
}

proof fn lemma_start_is_near(s: Seq<Double>, i: int, j: int)
    requires
        is_timeline(s),
        0 <= j <= i < s.len(),
    ensures
        !less(whole(1), difference(s[i], s[second_start(s, i, j)])),
    decreases i - j,
{
    if j < i && less(whole(1), difference(s[i], s[j])) {
        lemma_start_is_near(s, i, j + 1);
    } else if j == i {
        lemma_own_second(s[i]);
    }
}

proof fn lemma_insert_keeps(s: Seq<Double>, x: Double)
    requires
        is_timeline(s),
        x.finite(),
    ensures
        is_timeline(insert_stamp(s, x)),
        insert_stamp(s, x).to_multiset() == s.to_multiset().insert(x),
        insert_stamp(s, x).len() == s.len() + 1,
        insert_stamp(s, x).last() == if s.len() > 0 && less(x, s.last()) {
            s.last()
        } else {
            x
        },
    decreases s.len(),
{
    broadcast use vstd::seq_lib::group_to_multiset_ensures;

    let r = insert_stamp(s, x);
    if s.len() == 0 {
        assert(r =~= s.push(x));
    } else if less(x, s.last()) {
        let init = s.drop_last();
        assert forall|i: int| 0 <= i < init.len() implies (#[trigger] init[i]).finite() by {
            assert(init[i] == s[i]);
        }
        assert forall|i: int, j: int| 0 <= i <= j < init.len() implies at_most(
            #[trigger] init[i],
            #[trigger] init[j],
        ) by {
            assert(init[i] == s[i] && init[j] == s[j]);
        }
        lemma_insert_keeps(init, x);
        let q = insert_stamp(init, x);
        assert(s.last() == s[s.len() - 1]);
        assert forall|i: int| 0 <= i < r.len() implies (#[trigger] r[i]).finite() by {
            if i < q.len() {
                assert(r[i] == q[i]);
            }
        }
        assert forall|i: int, j: int| 0 <= i <= j < r.len() implies at_most(
            #[trigger] r[i],
            #[trigger] r[j],
        ) by {
            if j < q.len() {
                assert(r[i] == q[i] && r[j] == q[j]);
            } else if i < q.len() {
                assert(r[i] == q[i] && r[j] == s.last());
                assert(at_most(q[i], q[q.len() - 1]));
                if init.len() > 0 {
                    assert(init.last() == s[s.len() - 2]);
                    assert(at_most(s[s.len() - 2], s[s.len() - 1]));
                }
            }
        }
        assert(s =~= init.push(s.last()));
    } else {
        assert(s.last() == s[s.len() - 1]);
        assert forall|i: int| 0 <= i < r.len() implies (#[trigger] r[i]).finite() by {
            if i < s.len() {
                assert(r[i] == s[i]);
            }
        }
        assert forall|i: int, j: int| 0 <= i <= j < r.len() implies at_most(
            #[trigger] r[i],
            #[trigger] r[j],
        ) by {
            if j < s.len() {
                assert(r[i] == s[i] && r[j] == s[j]);
            } else if i < s.len() {
                assert(r[i] == s[i]);
                assert(at_most(s[i], s[s.len() - 1]));
            }
        }
    }
}

/// Finite stamps are put in the order of time, all of them.
pub proof fn lemma_in_order(h: Seq<Double>)
    requires
        forall|i: int| 0 <= i < h.len() ==> (#[trigger] h[i]).finite(),
    ensures
        is_timeline(in_order(h)),
        in_order(h).to_multiset() == h.to_multiset(),
        in_order(h).len() == h.len(),
    decreases h.len(),
{
    broadcast use vstd::seq_lib::group_to_multiset_ensures;

    if h.len() > 0 {
        let init = h.drop_last();
        assert forall|i: int| 0 <= i < init.len() implies (#[trigger] init[i]).finite() by {
            assert(init[i] == h[i]);
        }
        assert(h[h.len() - 1].finite());
        lemma_in_order(init);
        lemma_insert_keeps(in_order(init), h.last());
        assert(h =~= init.push(h.last()));
    } else {
        assert(in_order(h) =~= h);
    }
}

// ---------------------------------------------------------------- what is listed reads back

/// A number rounded to thousandths.
pub open spec fn thousandths(x: Double) -> Double {
    scaled(x.negative(), half_even(x.size() * ten(3), one()), -3)
}

/// Whether a text has only what a decimal number has.
pub open spec fn is_plain(t: Seq<char>) -> bool {
    forall|i: int|
        0 <= i < t.len() ==> is_digit(#[trigger] t[i]) || t[i] == '-' || t[i] == '.'
}

/// A number that is written with a few decimal places is read as it was rounded to them.
pub proof fn lemma_fixed_reads(x: Double, p: nat)
    requires
        x.finite(),
        1 <= p <= 3,
    ensures
        is_plain(fixed(x, p)),
        fixed(x, p).len() > 0,
        parsed(fixed(x, p)) == Some(
            scaled(x.negative(), half_even(x.size() * ten(p), one()), -(p as int)),
        ),
{
    let k = half_even(x.size() * ten(p), one());
    reveal_with_fuel(ten, 4);
    let w = ten(p);
    assert(w > 0);
    vstd::arithmetic::div_mod::lemma_fundamental_div_mod(k as int, w as int);
    vstd::arithmetic::mul::lemma_mul_is_commutative(w as int, k as int / w as int);
    let q = k / w;
    let r = k % w;
    let a = numeral(q);
    let b = zero_fill(numeral(r), p);
    lemma_numeral_number(q);
    lemma_filled(r, p);
    let t = fixed(x, p);
    let body = a + seq!['.'] + b;
    assert(t =~= sign_text(x) + body);
    assert(unsigned(t) =~= body) by {
        assert(is_digit(a[0]));
        if x.negative() {
            assert(t.skip(1) =~= body);
        } else {
            assert(t[0] == a[0]);
        }
    }
    assert forall|i: int| 0 <= i < t.len() implies is_digit(#[trigger] t[i]) || t[i] == '-' || t[i]
        == '.' by {
        let o = sign_text(x).len() as int;
        if i >= o {
            let j = i - o;
            assert(t[i] == body[j]);
            if j < a.len() {
                assert(body[j] == a[j]);
            } else if j > a.len() {
                assert(body[j] == b[j - a.len() - 1]);
            }
        }
    }
    reveal_strlit("inf");
    reveal_strlit("infinity");
    reveal_strlit("nan");
    assert(body[0] == a[0]);
    assert(small_letter(body[0]) == body[0]);
    // the digits up to the point, and those after it
    let n = a.len() as int;
    assert forall|i: int| 0 <= i < n implies is_digit(#[trigger] body[i]) by {
        assert(body[i] == a[i]);
    }
    lemma_digits_up_to(body, 0, n);
    assert(body[n] == '.');
    assert forall|i: int| n + 1 <= i < body.len() implies is_digit(#[trigger] body[i]) by {
        assert(body[i] == b[i - n - 1]);
    }
    lemma_digits_up_to(body, n + 1, body.len() as int);
    assert(body.take(n) =~= a);
    assert(body.subrange(n + 1, body.len() as int) =~= b);
    lemma_number_join(a, b);
    assert(number(a + b) == k);
}

proof fn lemma_plain_trimmed(t: Seq<char>)
    requires
        is_plain(t),
    ensures
        trimmed(t) == t,
{
    if t.len() > 0 {
        assert(!is_space(t[0]));
        assert(!is_space(t[t.len() - 1]));
        assert(t.subrange(0, t.len() as int) =~= t);
    } else {
        assert(t =~= seq![]);
    }
}

pub(crate) proof fn lemma_find_none(s: Seq<char>, c: char, i: int)
    requires
        0 <= i <= s.len(),
        forall|k: int| i <= k < s.len() ==> #[trigger] s[k] != c,
    ensures
        find_from(s, c, i) == s.len(),
    decreases s.len() - i,
{
    if i < s.len() {
        lemma_find_none(s, c, i + 1);
    }
}

pub(crate) proof fn lemma_find_at(s: Seq<char>, c: char, i: int, n: int)
    requires
        0 <= i <= n < s.len(),
        s[n] == c,
        forall|k: int| i <= k < n ==> #[trigger] s[k] != c,
    ensures
        find_from(s, c, i) == n,
    decreases n - i,
{
    if i < n {
        lemma_find_at(s, c, i + 1, n);
    }
}

/// What stands before the first comma is the first field.
proof fn lemma_split_first(p: Seq<char>, rest: Seq<char>)
    requires
        is_plain(p),
    ensures
        split(p + seq![','] + rest, ',') == seq![p] + split(rest, ','),
{
    let s = p + seq![','] + rest;
    assert forall|k: int| 0 <= k < p.len() implies #[trigger] s[k] != ',' by {
        assert(s[k] == p[k]);
    }
    lemma_find_at(s, ',', 0, p.len() as int);
    assert(s.take(p.len() as int) =~= p);
    assert(s.skip(p.len() as int + 1) =~= rest);
}

proof fn lemma_listed_front(ts: Seq<Seq<char>>)
    requires
        ts.len() > 1,
    ensures
        listed(ts) == ts[0] + seq![','] + listed(ts.skip(1)),
    decreases ts.len(),
{
    let r = ts.skip(1);
    if ts.len() == 2 {
        assert(ts.drop_last() =~= seq![ts[0]]);
        assert(listed(ts.drop_last()) == ts[0]);
        assert(listed(r) == ts[1]);
        assert(listed(ts) =~= ts[0] + seq![','] + listed(r));
    } else {
        let init = ts.drop_last();
        lemma_listed_front(init);
        assert(init.skip(1) =~= r.drop_last());
        assert(listed(ts) =~= ts[0] + seq![','] + listed(r));
    }
}

proof fn lemma_split_listed(ts: Seq<Seq<char>>)
    requires
        ts.len() > 0,
        forall|i: int| 0 <= i < ts.len() ==> is_plain(#[trigger] ts[i]),
    ensures
        split(listed(ts), ',') == ts,
    decreases ts.len(),
{
    assert(is_plain(ts[0]));
    if ts.len() == 1 {
        let p = ts[0];
        assert forall|k: int| 0 <= k < p.len() implies #[trigger] p[k] != ',' by {}
        lemma_find_none(p, ',', 0);
        assert(seq![p] =~= ts);
    } else {
        let r = ts.skip(1);
        assert forall|i: int| 0 <= i < r.len() implies is_plain(#[trigger] r[i]) by {
            assert(r[i] == ts[i + 1]);
        }
        lemma_split_listed(r);
        lemma_listed_front(ts);
        lemma_split_first(ts[0], listed(r));
        assert(seq![ts[0]] + r =~= ts);
    }
}

proof fn lemma_listed_ends(ts: Seq<Seq<char>>)
    requires
        ts.len() > 0,
        forall|i: int| 0 <= i < ts.len() ==> is_plain(#[trigger] ts[i]) && ts[i].len() > 0,
    ensures
        listed(ts).len() > 0,
        listed(ts)[0] != '[',
        listed(ts).last() != ']',
    decreases ts.len(),
{
    assert(is_plain(ts[0]) && ts[0].len() > 0);
    assert(is_plain(ts.last()) && ts.last().len() > 0) by {
        assert(ts.last() == ts[ts.len() - 1]);
    }
    if ts.len() == 1 {
        assert(ts[0][0] != '[');
        assert(ts[0][ts[0].len() - 1] != ']');
    } else {
        let init = ts.drop_last();
        assert forall|i: int| 0 <= i < init.len() implies is_plain(#[trigger] init[i])
            && init[i].len() > 0 by {
            assert(init[i] == ts[i]);
        }
        lemma_listed_ends(init);
        let l = listed(ts);
        assert(l[0] == listed(init)[0]);
        let t = ts.last();
        assert(l.last() == t[t.len() - 1]);
    }
}

proof fn lemma_numbers_listed(v: Seq<Double>, k: int)
    requires
        0 <= k <= v.len(),
        forall|i: int| 0 <= i < v.len() ==> (#[trigger] v[i]).finite(),
    ensures
        numbers_in(stamp_texts(v), k) == Seq::new(k as nat, |i: int| thousandths(v[i])),
    decreases k,
{
    let want = Seq::new(k as nat, |i: int| thousandths(v[i]));
    if k > 0 {
        lemma_numbers_listed(v, k - 1);
        let x = v[k - 1];
        assert(x.finite());
        lemma_fixed_reads(x, 3);
        lemma_plain_trimmed(fixed(x, 3));
        assert(stamp_texts(v)[k - 1] == fixed(x, 3));
        assert(Seq::new((k - 1) as nat, |i: int| thousandths(v[i])).push(thousandths(x)) =~= want);
    } else {
        assert(numbers_in(stamp_texts(v), k) =~= want);
    }
}

/// Stamps that were listed read back as themselves, rounded to thousandths.
pub proof fn lemma_stamps_round_trip(v: Seq<Double>)
    requires
        forall|i: int| 0 <= i < v.len() ==> (#[trigger] v[i]).finite(),
    ensures
        stamps_in(stamps_text(v)) == Seq::new(v.len(), |i: int| thousandths(v[i])),
{
    let ts = stamp_texts(v);
    let l = listed(ts);
    let t = stamps_text(v);
    assert(t[0] == '[' && t.last() == ']');
    assert(!is_space('[') && !is_space(']'));
    assert(trimmed(t) == t) by {
        assert(t[t.len() - 1] == ']');
        assert(space_start(t, t.len() as int) == t.len());
        assert(space_end(t, 0) == 0);
        assert(t.subrange(0, t.len() as int) =~= t);
    }
    let rest = l + seq![']'];
    assert(t.skip(1) =~= rest);
    assert(without_front(t, '[') == without_front(rest, '['));
    if v.len() > 0 {
        assert forall|i: int| 0 <= i < ts.len() implies is_plain(#[trigger] ts[i]) && ts[i].len()
            > 0 by {
            assert(v[i].finite());
            lemma_fixed_reads(v[i], 3);
        }
        lemma_listed_ends(ts);
        assert(rest[0] == l[0]);
        assert(without_front(rest, '[') == rest);
        assert(rest.drop_last() =~= l);
        assert(without_back(rest, ']') == without_back(l, ']'));
        assert(without_back(l, ']') == l);
        lemma_split_listed(ts);
        lemma_numbers_listed(v, v.len() as int);
    } else {
        assert(l =~= seq![]);
        assert(rest =~= seq![']']);
        assert(without_front(rest, '[') == rest);
        assert(rest.drop_last() =~= seq![]);
        let e = Seq::<char>::empty();
        assert(without_back(rest, ']') == without_back(e, ']'));
        assert(without_back(e, ']') == e);
        assert(split(e, ',') =~= seq![e]);
        assert(numbers_in(seq![e], 1) =~= seq![]) by {
            assert(trimmed(e) =~= e);
            assert(unsigned(e) =~= e);
            reveal_strlit("inf");
            reveal_strlit("infinity");
            reveal_strlit("nan");
            assert(digits_end(e, 0) == 0);
            assert((e.take(0) + e.subrange(0, 0)).len() == 0);
            assert(parsed(e) is None);
            assert(numbers_in(seq![e], 0) =~= seq![]);
        }
        assert(stamps_in(t) =~= Seq::new(v.len(), |i: int| thousandths(v[i])));
    }
}

} // verus!
