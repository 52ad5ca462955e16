//! Decimal texts of numbers: reading them, and writing them with a fixed number of places
//! or with as few digits as tell the number apart.

use vstd::prelude::*;
use vstd::arithmetic::power2::{
    lemma2_to64, lemma2_to64_rest, lemma_pow2_adds, lemma_pow2_pos, lemma_pow2_strictly_increases,
    pow2,
};
use vstd::arithmetic::mul::{
    lemma_mul_inequality, lemma_mul_is_associative, lemma_mul_is_commutative,
};
use vstd::arithmetic::div_mod::lemma_fundamental_div_mod_converse;
use crate::natural::Nat;
use crate::double::{
    assemble, half_even, is_scale, lemma_magnitude_order, lemma_rounded_exact, lemma_rounded_order,
    lemma_scale_is, magnitude_units, not_a_number, one, power, round_ratio, rounded, with_sign,
    Double, INF,
};
use crate::text::{
    chars_of, decimal, digit_value, extend, is_digit, lemma_digit, lemma_numeral_digits,
    nat_numeral, numeral, part, push_zeros, string_of, u64_numeral, zero_fill, zeros,
};

verus! {

// ---------------------------------------------------------------- decimal numbers

/// Ten to the power `k`.
pub open spec fn ten(k: nat) -> nat
    decreases k,
{
    if k == 0 {
        1
    } else {
        10 * ten((k - 1) as nat)
    }
}

/// The magnitude nearest to `k` times ten to the power `e`.
pub open spec fn decimal_magnitude(k: nat, e: int) -> nat {
    if e >= 0 {
        rounded(k * ten(e as nat) * one(), 1)
    } else {
        rounded(k * one(), ten((-e) as nat))
    }
}

/// The number nearest to `k` times ten to the power `e`, with the given sign.
pub open spec fn scaled(negative: bool, k: nat, e: int) -> Double {
    with_sign(negative, decimal_magnitude(k, e))
}

/// The number nearest to `k` times ten to the power `e`.
pub open spec fn dec(k: nat, e: int) -> Double {
    scaled(false, k, e)
}

pub proof fn lemma_ten_adds(a: nat, b: nat)
    ensures
        ten(a + b) == ten(a) * ten(b),
    decreases a,
{
    if a == 0 {
        assert(1 * ten(b) == ten(b));
    } else {
        lemma_ten_adds((a - 1) as nat, b);
        assert(((a + b) - 1) as nat == (a - 1) as nat + b);
        lemma_mul_is_associative(10, ten((a - 1) as nat) as int, ten(b) as int);
    }
}

proof fn lemma_ten_large(k: nat)
    ensures
        ten(k) >= pow2(3 * k),
        ten(k) > 0,
    decreases k,
{
    lemma2_to64();
    if k > 0 {
        lemma_ten_large((k - 1) as nat);
        lemma_pow2_adds(3, (3 * (k - 1)) as nat);
        assert(3 * k == 3 + 3 * (k - 1));
    }
}

proof fn lemma_zero_decimal(e: int)
    ensures
        decimal_magnitude(0, e) == 0,
{
    lemma_pow2_pos(53);
    let d: nat = if e >= 0 {
        1
    } else {
        ten((-e) as nat)
    };
    if e < 0 {
        lemma_ten_large((-e) as nat);
    }
    assert(0 * ten(e as nat) == 0);
    assert(0 * one() == 0);
    assert(d * pow2(53) > 0) by (nonlinear_arith)
        requires
            d > 0,
            pow2(53) > 0,
    ;
    assert(is_scale(0, d, 0));
    lemma_scale_is(0, d, 0);
    lemma2_to64();
    assert(d * pow2(0) == d);
    assert(0nat / d == 0 && 0nat % d == 0) by {
        lemma_fundamental_div_mod_converse(0, d as int, 0, 0);
    }
}

proof fn lemma_infinite_decimal(k: nat, e: int)
    requires
        k > 0,
        e >= 342,
    ensures
        decimal_magnitude(k, e) == INF,
{
    lemma2_to64();
    lemma2_to64_rest();
    let t = ten(e as nat);
    lemma_ten_large(e as nat);
    if 3 * e > 1024 {
        lemma_pow2_strictly_increases(1024, (3 * e) as nat);
    }
    lemma_pow2_adds(1024, 1074);
    lemma_pow2_pos(1074);
    let a = pow2(1024) as int;
    let b = one() as int;
    assert(k * t * b >= a * b) by (nonlinear_arith)
        requires
            k >= 1,
            t >= a,
            a >= 0,
            b > 0,
    ;
    let n = pow2(2098);
    lemma_pow2_adds(52, 2046);
    lemma_pow2_adds(53, 2046);
    lemma_pow2_pos(2046);
    assert(is_scale(n, 1, 2046));
    lemma_scale_is(n, 1, 2046);
    assert(1 * pow2(2046) == pow2(2046));
    lemma_fundamental_div_mod_converse(
        n as int,
        pow2(2046) as int,
        0x10_0000_0000_0000,
        0,
    );
    assert(rounded(n, 1) == INF);
    lemma_rounded_order(n, 1, k * t * one(), 1);
}

proof fn lemma_vanishing_decimal(k: nat, l: nat, e: int)
    requires
        k < ten(l),
        l + e <= -359,
    ensures
        decimal_magnitude(k, e) == 0,
{
    lemma2_to64();
    lemma2_to64_rest();
    let j = (-e - l) as nat;
    lemma_ten_large(j);
    lemma_ten_large(l);
    lemma_ten_adds(l, j);
    if 3 * j > 1075 {
        lemma_pow2_strictly_increases(1075, 3 * j);
    }
    lemma_pow2_adds(1, 1074);
    lemma_pow2_pos(1074);
    let a = ten(l) as int;
    let b = ten(j) as int;
    let u = one() as int;
    assert(k * u * 2 <= 1 * (a * b)) by (nonlinear_arith)
        requires
            0 <= k < a,
            u > 0,
            b >= 2 * u,
    ;
    lemma_ten_large((-e) as nat);
    assert(is_scale(1, 2, 0));
    lemma_scale_is(1, 2, 0);
    assert(rounded(1, 2) == 0);
    lemma_rounded_order(k * one(), ten((-e) as nat), 1, 2);
}

/// Ten to the power `k`.
fn power_of_ten(k: u128) -> (r: Nat)
    ensures
        r@ == ten(k as nat),
{
    let mut n = Nat::from_u64(1);
    let mut i: u128 = 0;
    while i < k
        invariant
            i <= k,
            n@ == ten(i as nat),
        decreases k - i,
    {
        n.mul_add(10, 0);
        i = i + 1;
    }
    n
}

/// Multiplies by ten to the power `k`.
fn times_ten(n: &mut Nat, k: u128)
    ensures
        final(n)@ == old(n)@ * ten(k as nat),
{
    let mut i: u128 = 0;
    let ghost before = n@;
    assert(before * 1 == before);
    while i < k
        invariant
            i <= k,
            n@ == before * ten(i as nat),
        decreases k - i,
    {
        proof {
            let t = ten(i as nat) as int;
            assert((before * t) * 10 == before * (10 * t)) by (nonlinear_arith);
        }
        n.mul_add(10, 0);
        i = i + 1;
    }
}

/// The number nearest to `k` times ten to the power `e`, with the given sign.
pub fn decimal_number(negative: bool, k: &Nat, e: i128) -> (r: Double)
    requires
        e > i128::MIN,
    ensures
        r == scaled(negative, k@, e as int),
{
    let mut n = k.copy();
    if e >= 0 {
        times_ten(&mut n, e as u128);
        n.shift(1074);
        round_ratio(negative, &n, &Nat::from_u64(1))
    } else {
        n.shift(1074);
        let d = power_of_ten((-e) as u128);
        proof {
            lemma_ten_large((-e) as nat);
        }
        round_ratio(negative, &n, &d)
    }
}

/// The number nearest to `k` times ten to the power `e`.
pub fn literal(k: u64, e: i64) -> (r: Double)
    ensures
        r == dec(k as nat, e as int),
{
    decimal_number(false, &Nat::from_u64(k), e as i128)
}

// ---------------------------------------------------------------- reading

/// The value of a text of decimal digits.
pub open spec fn number(s: Seq<char>) -> nat
    decreases s.len(),
{
    if s.len() == 0 {
        0
    } else {
        number(s.drop_last()) * 10 + digit_value(s.last())
    }
}

/// Whether a text has only decimal digits.
pub open spec fn all_digits(s: Seq<char>) -> bool {
    forall|i: int| 0 <= i < s.len() ==> is_digit(#[trigger] s[i])
}

/// Where the digits that start at `i` end.
pub open spec fn digits_end(s: Seq<char>, i: int) -> int
    decreases s.len() - i,
{
    if 0 <= i < s.len() && is_digit(s[i]) {
        digits_end(s, i + 1)
    } else {
        i
    }
}

/// `c`, as a small letter where it is an ASCII capital.
pub open spec fn small_letter(c: char) -> char {
    if 'A' <= c <= 'Z' {
        (c as u32 + 32) as char
    } else {
        c
    }
}

/// Whether `s` is the word `w`, in whatever case.
pub open spec fn is_word(s: Seq<char>, w: Seq<char>) -> bool {
    &&& s.len() == w.len()
    &&& forall|i: int| 0 <= i < s.len() ==> small_letter(#[trigger] s[i]) == w[i]
}

/// Whether `s` starts with a sign.
pub open spec fn signed(s: Seq<char>) -> bool {
    s.len() > 0 && (s[0] == '-' || s[0] == '+')
}

/// `s` without its sign.
pub open spec fn unsigned(s: Seq<char>) -> Seq<char> {
    if signed(s) {
        s.skip(1)
    } else {
        s
    }
}

/// Whether `s` starts with a minus sign.
pub open spec fn minus(s: Seq<char>) -> bool {
    s.len() > 0 && s[0] == '-'
}

/// The number that an unsigned decimal text gives: digits with at most one point among
/// them, and an exponent, which may be left out.
pub open spec fn parsed_decimal(negative: bool, b: Seq<char>) -> Option<Double> {
    let i = digits_end(b, 0);
    let point = i < b.len() && b[i] == '.';
    let j = if point {
        digits_end(b, i + 1)
    } else {
        i
    };
    let places = if point {
        j - i - 1
    } else {
        0
    };
    let digits = b.take(i) + b.subrange(j - places, j);
    if digits.len() == 0 {
        None
    } else if j == b.len() {
        Some(scaled(negative, number(digits), -places))
    } else if b[j] == 'e' || b[j] == 'E' {
        let x = b.skip(j + 1);
        let e = unsigned(x);
        if e.len() == 0 || !all_digits(e) {
            None
        } else if minus(x) {
            Some(scaled(negative, number(digits), -number(e) - places))
        } else {
            Some(scaled(negative, number(digits), number(e) - places))
        }
    } else {
        None
    }
}

/// The number that a text gives.
pub open spec fn parsed(s: Seq<char>) -> Option<Double> {
    let b = unsigned(s);
    if is_word(b, "inf"@) || is_word(b, "infinity"@) {
        Some(with_sign(minus(s), INF as nat))
    } else if is_word(b, "nan"@) {
        Some(not_a_number())
    } else {
        parsed_decimal(minus(s), b)
    }
}

pub proof fn lemma_number_bound(s: Seq<char>)
    requires
        all_digits(s),
    ensures
        number(s) < ten(s.len()),
    decreases s.len(),
{
    if s.len() > 0 {
        lemma_number_bound(s.drop_last());
    }
}

pub proof fn lemma_digits_end(s: Seq<char>, i: int)
    requires
        0 <= i <= s.len(),
    ensures
        i <= digits_end(s, i) <= s.len(),
        all_digits(s.subrange(i, digits_end(s, i))),
        digits_end(s, i) < s.len() ==> !is_digit(s[digits_end(s, i)]),
    decreases s.len() - i,
{
    if i < s.len() && is_digit(s[i]) {
        lemma_digits_end(s, i + 1);
        let e = digits_end(s, i);
        assert forall|k: int| 0 <= k < s.subrange(i, e).len() implies is_digit(
            #[trigger] s.subrange(i, e)[k],
        ) by {
            if k > 0 {
                assert(s.subrange(i, e)[k] == s.subrange(i + 1, e)[k - 1]);
            }
        }
    }
}

/// Where the digits that start at `i` end.
pub fn end_of_digits(s: &[char], i: usize) -> (r: usize)
    requires
        i <= s@.len(),
    ensures
        r == digits_end(s@, i as int),
        i <= r <= s@.len(),
        all_digits(s@.subrange(i as int, r as int)),
{
    let mut k: usize = i;
    while k < s.len() && decimal(s[k])
        invariant
            i <= k <= s@.len(),
            digits_end(s@, k as int) == digits_end(s@, i as int),
        decreases s@.len() - k,
    {
        k = k + 1;
    }
    proof {
        lemma_digits_end(s@, i as int);
    }
    k
}

/// The value of a text of decimal digits.
pub fn digits_number(s: &[char]) -> (r: Nat)
    requires
        all_digits(s@),
    ensures
        r@ == number(s@),
{
    let mut n = Nat::from_u64(0);
    let mut i: usize = 0;
    while i < s.len()
        invariant
            i <= s@.len(),
            all_digits(s@),
            n@ == number(s@.take(i as int)),
        decreases s@.len() - i,
    {
        proof {
            assert(s@.take(i + 1).drop_last() =~= s@.take(i as int));
            assert(is_digit(s@[i as int]));
        }
        n.mul_add(10, s[i] as u32 - 48);
        i = i + 1;
    }
    proof {
        assert(s@.take(s@.len() as int) =~= s@);
    }
    n
}

/// The value of a text of decimal digits, or some smaller value that is large as well.
fn capped_number(s: &[char]) -> (r: i128)
    requires
        all_digits(s@),
    ensures
        0 <= r <= number(s@),
        r < 10_000_000_000_000_000_000_000_000_000_000,
        r == number(s@) || r >= 1_000_000_000_000_000_000_000_000_000_000,
{
    let mut n: i128 = 0;
    let mut i: usize = 0;
    while i < s.len()
        invariant
            i <= s@.len(),
            all_digits(s@),
            0 <= n <= number(s@.take(i as int)),
            n < 10_000_000_000_000_000_000_000_000_000_000,
            n == number(s@.take(i as int)) || n >= 1_000_000_000_000_000_000_000_000_000_000,
        decreases s@.len() - i,
    {
        proof {
            assert(s@.take(i + 1).drop_last() =~= s@.take(i as int));
            assert(is_digit(s@[i as int]));
        }
        if n < 1_000_000_000_000_000_000_000_000_000_000 {
            n = n * 10 + (s[i] as u32 - 48) as i128;
        }
        i = i + 1;
    }
    proof {
        assert(s@.take(s@.len() as int) =~= s@);
    }
    n
}

/// The number nearest to the given digits times ten to the power `e`, whatever `e`.
fn from_digits(negative: bool, digits: &[char], e: i128) -> (r: Double)
    requires
        all_digits(digits@),
        -0x1_0000_0000_0000_0000_0000_0000_0000 < e < 0x1_0000_0000_0000_0000_0000_0000_0000,
    ensures
        r == scaled(negative, number(digits@), e as int),
{
    let k = digits_number(digits);
    if k.is_zero() {
        proof {
            lemma_zero_decimal(e as int);
        }
        return assemble(negative, 0);
    }
    if e >= 342 {
        proof {
            lemma_infinite_decimal(k@, e as int);
        }
        return assemble(negative, INF);
    }
    if digits.len() as i128 + e <= -359 {
        proof {
            lemma_number_bound(digits@);
            lemma_vanishing_decimal(k@, digits@.len(), e as int);
        }
        return assemble(negative, 0);
    }
    decimal_number(negative, &k, e)
}

/// Whether `s` is the word `w`, in whatever case.
fn same_word(s: &[char], w: &str) -> (r: bool)
    ensures
        r == is_word(s@, w@),
{
    let v = chars_of(w);
    if s.len() != v.len() {
        return false;
    }
    let mut i: usize = 0;
    while i < s.len()
        invariant
            i <= s@.len(),
            v@ == w@,
            s@.len() == v@.len(),
            forall|j: int| 0 <= j < i ==> small_letter(#[trigger] s@[j]) == w@[j],
        decreases s@.len() - i,
    {
        let c: char = s[i];
        let d: char = if 'A' <= c && c <= 'Z' {
            ((c as u8) + 32) as char
        } else {
            c
        };
        assert(d == small_letter(c));
        if d != v[i] {
            assert(small_letter(s@[i as int]) != w@[i as int]);
            return false;
        }
        i = i + 1;
    }
    true
}

proof fn lemma_number_grows(s: Seq<char>, i: int)
    requires
        0 <= i <= s.len(),
    ensures
        number(s.take(i)) <= number(s),
    decreases s.len() - i,
{
    if i == s.len() {
        assert(s.take(i) =~= s);
    } else {
        lemma_number_grows(s, i + 1);
        assert(s.take(i + 1).drop_last() =~= s.take(i));
    }
}

/// The integer that a text of digits gives, up to `max`.
pub open spec fn parsed_digits(s: Seq<char>, max: nat) -> Option<nat> {
    if s.len() == 0 || !all_digits(s) || number(s) > max {
        None
    } else {
        Some(number(s))
    }
}

/// The integer that a numeral gives, up to `max`; it may start with a plus sign.
pub open spec fn parsed_whole(s: Seq<char>, max: nat) -> Option<nat> {
    if s.len() > 0 && s[0] == '+' {
        parsed_digits(s.skip(1), max)
    } else {
        parsed_digits(s, max)
    }
}

/// The integer that a text of digits gives, up to `max`.
pub fn parse_digits(s: &[char], max: u64) -> (r: Option<u64>)
    ensures
        match r {
            Some(n) => parsed_digits(s@, max as nat) == Some(n as nat) && n <= max,
            None => parsed_digits(s@, max as nat) is None,
        },
{
    let end: usize = end_of_digits(s, 0);
    proof {
        assert(s@.subrange(0, s@.len() as int) =~= s@);
        if end < s@.len() {
            lemma_digits_end(s@, 0);
        }
    }
    if s.len() == 0 || end < s.len() {
        return None;
    }
    let mut n: u64 = 0;
    let mut i: usize = 0;
    while i < s.len()
        invariant
            i <= s@.len(),
            s@.len() > 0,
            all_digits(s@),
            n == number(s@.take(i as int)),
            n <= max,
        decreases s@.len() - i,
    {
        proof {
            assert(s@.take(i + 1).drop_last() =~= s@.take(i as int));
            assert(is_digit(s@[i as int]));
        }
        let m: u128 = n as u128 * 10 + (s[i] as u32 - 48) as u128;
        if m > max as u128 {
            proof {
                lemma_number_grows(s@, i + 1);
            }
            return None;
        }
        n = m as u64;
        i = i + 1;
    }
    proof {
        assert(s@.take(s@.len() as int) =~= s@);
    }
    Some(n)
}

/// The integer that a numeral gives, up to `max`.
pub fn parse_whole(s: &[char], max: u64) -> (r: Option<u64>)
    ensures
        match r {
            Some(n) => parsed_whole(s@, max as nat) == Some(n as nat) && n <= max,
            None => parsed_whole(s@, max as nat) is None,
        },
{
    if s.len() > 0 && s[0] == '+' {
        let d = part(s, 1, s.len());
        assert(d@ =~= s@.skip(1));
        parse_digits(d, max)
    } else {
        parse_digits(s, max)
    }
}

/// The integer of 64 bits that a numeral gives; it may start with a sign.
pub open spec fn parsed_i64(s: Seq<char>) -> Option<int> {
    if s.len() > 0 && s[0] == '-' {
        match parsed_digits(s.skip(1), 0x8000_0000_0000_0000) {
            Some(n) => Some(-(n as int)),
            None => None,
        }
    } else {
        match parsed_whole(s, 0x7fff_ffff_ffff_ffff) {
            Some(n) => Some(n as int),
            None => None,
        }
    }
}

/// The integer of 64 bits that a numeral gives.
pub fn parse_i64(s: &[char]) -> (r: Option<i64>)
    ensures
        match r {
            Some(i) => parsed_i64(s@) == Some(i as int),
            None => parsed_i64(s@) is None,
        },
{
    if s.len() > 0 && s[0] == '-' {
        let d = part(s, 1, s.len());
        assert(d@ =~= s@.skip(1));
        match parse_digits(d, 0x8000_0000_0000_0000) {
            Some(n) => Some((-(n as i128)) as i64),
            None => None,
        }
    } else {
        match parse_whole(s, 0x7fff_ffff_ffff_ffff) {
            Some(n) => Some(n as i64),
            None => None,
        }
    }
}

/// The number that an unsigned decimal text gives.
fn parse_decimal(negative: bool, b: &[char]) -> (r: Option<Double>)
    ensures
        r == parsed_decimal(negative, b@),
{
    let n: usize = b.len();
    let i: usize = end_of_digits(b, 0);
    let mut digits: Vec<char> = Vec::new();
    extend(&mut digits, part(b, 0, i));
    let mut j: usize = i;
    let mut places: usize = 0;
    if i < n && b[i] == '.' {
        j = end_of_digits(b, i + 1);
        places = j - i - 1;
        extend(&mut digits, part(b, i + 1, j));
    }
    proof {
        assert(b@.take(i as int) =~= b@.subrange(0, i as int));
        assert(digits@ =~= b@.take(i as int) + b@.subrange(j - places, j as int));
        assert forall|k: int| 0 <= k < digits@.len() implies is_digit(#[trigger] digits@[k]) by {
            if k < i {
                assert(digits@[k] == b@.subrange(0, i as int)[k]);
            } else {
                assert(digits@[k] == b@.subrange(i + 1, j as int)[k - i]);
            }
        }
    }
    if digits.len() == 0 {
        return None;
    }
    if j == n {
        return Some(from_digits(negative, digits.as_slice(), -(places as i128)));
    }
    if b[j] != 'e' && b[j] != 'E' {
        return None;
    }
    let x = part(b, j + 1, n);
    assert(x@ =~= b@.skip(j + 1));
    let has_sign: bool = x.len() > 0 && (x[0] == '-' || x[0] == '+');
    let start: usize = if has_sign {
        1
    } else {
        0
    };
    let e = part(x, start, x.len());
    assert(e@ =~= unsigned(x@));
    let end: usize = end_of_digits(e, 0);
    proof {
        assert(e@.subrange(0, e@.len() as int) =~= e@);
        if end < e@.len() {
            lemma_digits_end(e@, 0);
        }
    }
    if e.len() == 0 || end < e.len() {
        return None;
    }
    let v: i128 = capped_number(e);
    let p: i128 = places as i128;
    let f: i128 = if x.len() > 0 && x[0] == '-' {
        -v - p
    } else {
        v - p
    };
    proof {
        let k = number(digits@);
        let w = number(e@) as int;
        lemma_number_bound(digits@);
        if v != w {
            if k == 0 {
                lemma_zero_decimal(f as int);
                lemma_zero_decimal(w - p);
                lemma_zero_decimal(-w - p);
            } else if x@.len() > 0 && x@[0] == '-' {
                lemma_vanishing_decimal(k, digits@.len(), f as int);
                lemma_vanishing_decimal(k, digits@.len(), -w - p);
            } else {
                lemma_infinite_decimal(k, f as int);
                lemma_infinite_decimal(k, w - p);
            }
        }
    }
    Some(from_digits(negative, digits.as_slice(), f))
}

/// The number that a text gives.
pub fn parse_double(s: &[char]) -> (r: Option<Double>)
    ensures
        r == parsed(s@),
{
    let has_sign: bool = s.len() > 0 && (s[0] == '-' || s[0] == '+');
    let negative: bool = s.len() > 0 && s[0] == '-';
    let start: usize = if has_sign {
        1
    } else {
        0
    };
    let b = part(s, start, s.len());
    assert(b@ =~= unsigned(s@));
    if same_word(b, "inf") || same_word(b, "infinity") {
        return Some(assemble(negative, INF));
    }
    if same_word(b, "nan") {
        return Some(Double::not_a_number());
    }
    parse_decimal(negative, b)
}

// ---------------------------------------------------------------- writing

/// The sign of `x`, where it is negative.
pub open spec fn sign_text(x: Double) -> Seq<char> {
    if x.negative() {
        seq!['-']
    } else {
        seq![]
    }
}

/// `x` with `p` decimal places, rounded to the nearest, ties to even.
pub open spec fn fixed(x: Double, p: nat) -> Seq<char> {
    if x.nan() {
        "NaN"@
    } else if x.infinite() {
        sign_text(x) + "inf"@
    } else {
        let k = half_even(x.size() * ten(p), one());
        if p == 0 {
            sign_text(x) + numeral(k)
        } else {
            sign_text(x) + numeral(k / ten(p)) + seq!['.'] + zero_fill(numeral(k % ten(p)), p)
        }
    }
}

/// The largest multiple of ten to the power `e` that is at most `n` units, as a multiple.
pub open spec fn floor_multiple(n: nat, e: int) -> nat {
    if e >= 0 {
        n / (ten(e as nat) * one())
    } else {
        n * ten((-e) as nat) / one()
    }
}

/// Whether `n` units are at least halfway from that multiple to the next.
pub open spec fn upper_half(n: nat, e: int) -> bool {
    if e >= 0 {
        2 * (n % (ten(e as nat) * one())) >= ten(e as nat) * one()
    } else {
        2 * (n * ten((-e) as nat) % one()) >= one()
    }
}

/// Whether `k` times ten to the power `e` reads back as magnitude `m`.
pub open spec fn reads_back(k: nat, e: int, m: nat) -> bool {
    decimal_magnitude(k, e) == m
}

/// Whether one of the multiples of ten to the power `e` next to `m` reads back as `m`.
pub open spec fn readable(m: nat, e: int) -> bool {
    let f = floor_multiple(magnitude_units(m), e);
    reads_back(f, e, m) || reads_back(f + 1, e, m)
}

/// Whether `e` is the largest power of ten of which a multiple reads back as `m`.
pub open spec fn is_shortest(m: nat, e: int) -> bool {
    readable(m, e) && forall|d: int| d > e ==> !readable(m, d)
}

/// The largest power of ten of which a multiple reads back as `m`.
pub open spec fn shortest_scale(m: nat) -> int {
    choose|e: int| is_shortest(m, e)
}

/// The digits of the shortest decimal that reads back as `m`, the nearest to `m` where there
/// are two.
pub open spec fn shortest_digits(m: nat) -> nat {
    let e = shortest_scale(m);
    let f = floor_multiple(magnitude_units(m), e);
    if reads_back(f, e, m) && !(reads_back(f + 1, e, m) && upper_half(magnitude_units(m), e)) {
        f
    } else {
        f + 1
    }
}

/// The digits `t`, times ten to the power `e`, written without an exponent.
pub open spec fn place_point(t: Seq<char>, e: int) -> Seq<char> {
    if e >= 0 {
        t + zeros(e)
    } else if t.len() > -e {
        t.take(t.len() + e) + seq!['.'] + t.skip(t.len() + e)
    } else {
        seq!['0', '.'] + zeros(-e - t.len()) + t
    }
}

/// `x`, with as few digits as tell it apart from all other numbers.
pub open spec fn display(x: Double) -> Seq<char> {
    if x.nan() {
        "NaN"@
    } else if x.infinite() {
        sign_text(x) + "inf"@
    } else if x.magnitude() == 0 {
        sign_text(x) + seq!['0']
    } else {
        sign_text(x) + place_point(
            numeral(shortest_digits(x.magnitude())),
            shortest_scale(x.magnitude()),
        )
    }
}

proof fn lemma_half_even_scaled(a: nat, b: nat, c: nat)
    requires
        b > 0,
        c > 0,
    ensures
        half_even(c * a, c * b) == half_even(a, b),
{
    vstd::arithmetic::div_mod::lemma_div_multiples_vanish_quotient(c as int, a as int, b as int);
    vstd::arithmetic::div_mod::lemma_truncate_middle(a as int, c as int, b as int);
    let r = (a % b) as int;
    let cc = c as int;
    let bb = b as int;
    assert((2 * (cc * r) > cc * bb) == (2 * r > bb)) by (nonlinear_arith)
        requires
            cc > 0,
    ;
    assert((2 * (cc * r) == cc * bb) == (2 * r == bb)) by (nonlinear_arith)
        requires
            cc > 0,
    ;
}

fn push_sign(s: &mut String, x: Double)
    ensures
        final(s)@ == old(s)@ + sign_text(x),
{
    if x.is_negative() {
        s.push('-');
        assert(s@ =~= old(s)@ + sign_text(x));
    } else {
        assert(s@ =~= old(s)@ + sign_text(x));
    }
}

/// `x` with `p` decimal places.
pub fn fixed_text(x: Double, p: u32) -> (r: String)
    requires
        p <= 3,
    ensures
        r@ == fixed(x, p as nat),
{
    let mut s = String::new();
    if x.is_nan() {
        s.append("NaN");
        assert(s@ =~= "NaN"@);
        return s;
    }
    push_sign(&mut s, x);
    assert(s@ =~= sign_text(x));
    if x.is_infinite() {
        s.append("inf");
        return s;
    }
    let t: u64 = if p == 0 {
        1
    } else if p == 1 {
        10
    } else if p == 2 {
        100
    } else {
        1000
    };
    proof {
        reveal_with_fuel(ten, 5);
    }
    let (m, e) = x.parts();
    let ghost k = half_even(x.size() * ten(p as nat), one());
    if e >= 1074 {
        let mut w = Nat::from_u64(m);
        w.shift(e - 1074);
        proof {
            lemma_pow2_adds((e - 1074) as nat, 1074);
            lemma_pow2_pos(1074);
            let u = one() as int;
            let a = pow2((e - 1074) as nat) as int;
            assert((m * (a * u)) * t == ((m * a) * t) * u) by (nonlinear_arith);
            lemma_fundamental_div_mod_converse(((m * a) * t) * u, u, (m * a) * t, 0);
            assert(k == w@ * t);
            lemma_fundamental_div_mod_converse(w@ * t, t as int, w@ as int, 0);
        }
        let digits = nat_numeral(&w);
        s.append(digits.as_str());
        if p > 0 {
            s.push('.');
            let rest = crate::text::filled(0, p as usize);
            s.append(rest.as_str());
        }
    } else {
        let f: u32 = 1074 - e;
        assert(m * t <= 0x20_0000_0000_0000 * 1000) by (nonlinear_arith)
            requires
                m <= 0x20_0000_0000_0000,
                0 <= t <= 1000,
        ;
        let n: u64 = m * t;
        proof {
            lemma_pow2_adds(e as nat, f as nat);
            lemma_pow2_pos(e as nat);
            lemma_pow2_pos(f as nat);
            let a = pow2(e as nat) as int;
            assert((m * a) * t == a * (m * t)) by (nonlinear_arith);
            lemma_half_even_scaled(n as nat, pow2(f as nat), pow2(e as nat));
            assert(k == half_even(n as nat, pow2(f as nat)));
        }
        let q: u64 = if f < 64 {
            let d: u64 = power(f);
            let q: u64 = n / d;
            let r: u64 = n % d;
            assert(q <= n) by (nonlinear_arith)
                requires
                    q == n / d,
                    d > 0,
            ;
            if r > d - r || (r == d - r && q % 2 == 1) {
                q + 1
            } else {
                q
            }
        } else {
            proof {
                lemma2_to64();
                if f > 64 {
                    lemma_pow2_strictly_increases(64, f as nat);
                }
                lemma_fundamental_div_mod_converse(n as int, pow2(f as nat) as int, 0, n as int);
            }
            0
        };
        let digits = u64_numeral(q / t);
        s.append(digits.as_str());
        if p > 0 {
            s.push('.');
            let rest = crate::text::filled(q % t, p as usize);
            s.append(rest.as_str());
        }
    }
    s
}

/// Five to the power `k`.
spec fn five(k: nat) -> nat
    decreases k,
{
    if k == 0 {
        1
    } else {
        5 * five((k - 1) as nat)
    }
}

proof fn lemma_ten_factors(k: nat)
    ensures
        ten(k) == pow2(k) * five(k),
    decreases k,
{
    lemma2_to64();
    if k > 0 {
        lemma_ten_factors((k - 1) as nat);
        lemma_pow2_adds(1, (k - 1) as nat);
        let a = pow2((k - 1) as nat) as int;
        let b = five((k - 1) as nat) as int;
        assert(10 * (a * b) == (2 * a) * (5 * b)) by (nonlinear_arith);
    } else {
        assert(five(0) == 1);
        assert(pow2(0) * 1 == 1);
    }
}

/// What the digit by digit division says of the multiples.
proof fn lemma_floor(n: nat, top: nat, e: int, f: nat, r: nat)
    requires
        e <= top,
        n * ten((top - e) as nat) == f * (ten(top) * one()) + r,
        r < ten(top) * one(),
    ensures
        f == floor_multiple(n, e),
        upper_half(n, e) == (2 * r >= ten(top) * one()),
{
    lemma_pow2_pos(1074);
    lemma_ten_large(top);
    let d = (ten(top) * one()) as int;
    if e >= 0 {
        let c = ten((top - e) as nat) as int;
        let b = (ten(e as nat) * one()) as int;
        lemma_ten_large((top - e) as nat);
        lemma_ten_large(e as nat);
        lemma_ten_adds((top - e) as nat, e as nat);
        lemma_mul_is_associative(c, ten(e as nat) as int, one() as int);
        assert(d == c * b);
        assert(b > 0) by (nonlinear_arith)
            requires
                b == ten(e as nat) * one(),
                ten(e as nat) > 0,
                one() > 0,
        ;
        lemma_mul_is_commutative(n as int, c);
        lemma_fundamental_div_mod_converse(c * n, d, f as int, r as int);
        vstd::arithmetic::div_mod::lemma_div_multiples_vanish_quotient(c, n as int, b);
        vstd::arithmetic::div_mod::lemma_truncate_middle(n as int, c, b);
        let x = n as int % b;
        assert((2 * (c * x) >= c * b) == (2 * x >= b)) by (nonlinear_arith)
            requires
                c > 0,
        ;
    } else {
        let c = ten(top) as int;
        let b = one() as int;
        let g = ten((-e) as nat) as int;
        lemma_ten_adds(top, (-e) as nat);
        assert(n * (c * g) == c * (n * g)) by (nonlinear_arith);
        lemma_fundamental_div_mod_converse(c * (n * g), d, f as int, r as int);
        vstd::arithmetic::div_mod::lemma_div_multiples_vanish_quotient(c, n * g, b);
        vstd::arithmetic::div_mod::lemma_truncate_middle(n * g, c, b);
        let x = (n * g) % b;
        assert((2 * (c * x) >= c * b) == (2 * x >= b)) by (nonlinear_arith)
            requires
                c > 0,
        ;
    }
}

proof fn lemma_not_readable_above(m: nat, top: nat, e: int)
    requires
        0 < m < INF,
        ten(top) * one() >= magnitude_units(m + 1),
        e >= top,
    ensures
        !readable(m, e),
{
    let n = magnitude_units(m);
    lemma_magnitude_order(m, m + 1);
    lemma_ten_adds(top, (e - top) as nat);
    lemma_ten_large((e - top) as nat);
    let a = ten(top) as int;
    let b = ten((e - top) as nat) as int;
    let u = one() as int;
    assert((a * b) * u >= a * u) by (nonlinear_arith)
        requires
            a >= 0,
            b >= 1,
            u >= 0,
    ;
    lemma_fundamental_div_mod_converse(n as int, (ten(e as nat) * one()) as int, 0, n as int);
    lemma_zero_decimal(e);
    assert(1 * ten(e as nat) == ten(e as nat));
    lemma_rounded_order(magnitude_units(m + 1), 1, 1 * ten(e as nat) * one(), 1);
    lemma_rounded_exact(m + 1);
}

proof fn lemma_readable_below(m: nat)
    requires
        0 < m < INF,
    ensures
        readable(m, -1074),
{
    let n = magnitude_units(m);
    lemma_ten_factors(1074);
    lemma_ten_large(1074);
    lemma_pow2_pos(1074);
    let t = ten(1074) as int;
    let u = one() as int;
    let v = five(1074) as int;
    assert(n * (u * v) == (n * v) * u) by (nonlinear_arith);
    lemma_fundamental_div_mod_converse(n * t, u, n * v, 0);
    let f = floor_multiple(n, -1074);
    assert(f * one() == n * ten(1074));
    assert(n * ten(1074) * 1 == n * ten(1074));
    lemma_rounded_order(n * ten(1074), ten(1074), n, 1);
    lemma_rounded_order(n, 1, n * ten(1074), ten(1074));
    lemma_rounded_exact(m);
}

proof fn lemma_shortest(m: nat, e: int)
    requires
        is_shortest(m, e),
    ensures
        shortest_scale(m) == e,
{
    let c = shortest_scale(m);
    assert(is_shortest(m, c));
    assert(readable(m, c) && readable(m, e));
}

/// The digits `t`, times ten to the power `e`, written without an exponent.
fn push_placed(s: &mut String, t: &[char], e: i64)
    requires
        -2000 <= e <= 2000,
    ensures
        final(s)@ == old(s)@ + place_point(t@, e as int),
{
    let n: usize = t.len();
    let ghost before = s@;
    if e >= 0 {
        s.append(string_of(t).as_str());
        push_zeros(s, e as u64);
        assert(s@ =~= before + place_point(t@, e as int));
    } else {
        let k: usize = (-e) as usize;
        if n > k {
            s.append(string_of(part(t, 0, n - k)).as_str());
            s.push('.');
            s.append(string_of(part(t, n - k, n)).as_str());
            assert(s@ =~= before + place_point(t@, e as int));
        } else {
            s.append("0.");
            proof {
                reveal_strlit("0.");
            }
            push_zeros(s, (k - n) as u64);
            s.append(string_of(t).as_str());
            assert(s@ =~= before + place_point(t@, e as int));
        }
    }
}

proof fn lemma_magnitude_bound(m: nat)
    requires
        m <= INF,
    ensures
        magnitude_units(m) <= pow2(2098),
        magnitude_units(INF as nat) == pow2(2098),
{
    lemma2_to64();
    lemma2_to64_rest();
    lemma_pow2_adds(52, 2046);
    if m < INF {
        lemma_magnitude_order(m, INF as nat);
    }
}

/// The number of units of magnitude `m`.
fn size_of_magnitude(m: u64) -> (r: Nat)
    requires
        m <= INF,
    ensures
        r@ == magnitude_units(m as nat),
        r@ <= pow2(2098),
{
    proof {
        lemma_magnitude_bound(m as nat);
    }
    if m == INF {
        let mut r = Nat::from_u64(1);
        r.shift(2098);
        r
    } else {
        assemble(false, m).size_nat()
    }
}

/// Ten to a power that is large enough, and the power.
fn power_above(next: &Nat) -> (r: (Nat, u64))
    requires
        next@ <= pow2(2098),
    ensures
        r.0@ == ten(r.1 as nat) * one(),
        r.0@ >= next@,
        r.1 <= 342,
{
    let mut d = Nat::from_u64(1);
    d.shift(1074);
    let mut top: u64 = 0;
    while d.less(next)
        invariant
            d@ == ten(top as nat) * one(),
            top <= 342,
            next@ <= pow2(2098),
        decreases 342 - top,
    {
        proof {
            if top == 342 {
                lemma_ten_large(342);
                lemma_pow2_strictly_increases(1024, 1026);
                lemma_pow2_adds(1024, 1074);
                lemma_mul_inequality(pow2(1024) as int, ten(342) as int, one() as int);
            }
            let t = ten(top as nat) as int;
            let u = one() as int;
            assert((t * u) * 10 == (10 * t) * u) by (nonlinear_arith);
        }
        d.mul_add(10, 0);
        top = top + 1;
    }
    (d, top)
}

/// Divides `10 r` by `d` and returns the quotient, which has one digit.
fn next_digit(r: &mut Nat, d: &Nat) -> (q: u32)
    requires
        old(r)@ < d@,
    ensures
        q < 10,
        old(r)@ * 10 == q * d@ + final(r)@,
        final(r)@ < d@,
{
    let ghost before = r@;
    r.mul_add(10, 0);
    let mut q: u32 = 0;
    while !r.less(d)
        invariant
            q < 10,
            before < d@,
            before * 10 == q * d@ + r@,
        decreases r@,
    {
        let ghost x = r@;
        r.subtract(d);
        proof {
            let dd = d@ as int;
            assert(q * dd + dd == (q + 1) * dd) by (nonlinear_arith);
            assert(q < 9) by (nonlinear_arith)
                requires
                    before * 10 == q * dd + x,
                    x >= dd,
                    before < dd,
            ;
        }
        q = q + 1;
    }
    q
}

/// `x`, with as few digits as tell it apart from all other numbers.
#[verifier::rlimit(40)]
pub fn display_text(x: Double) -> (s: String)
    ensures
        s@ == display(x),
{
    let mut s = String::new();
    if x.is_nan() {
        s.append("NaN");
        assert(s@ =~= "NaN"@);
        return s;
    }
    push_sign(&mut s, x);
    assert(s@ =~= sign_text(x));
    if x.is_infinite() {
        s.append("inf");
        return s;
    }
    let m: u64 = x.magnitude_bits();
    if m == 0 {
        s.push('0');
        assert(s@ =~= sign_text(x) + seq!['0']);
        return s;
    }
    let ghost n = magnitude_units(m as nat);
    let next: Nat = size_of_magnitude(m + 1);
    let (d, top) = power_above(&next);
    let mut r = x.size_nat();
    let mut f = Nat::from_u64(0);
    let mut e: i64 = top as i64;
    proof {
        lemma_magnitude_order(m as nat, (m + 1) as nat);
        assert(ten(0) == 1);
        assert(n * 1 == n);
        assert(0 * d@ == 0);
        assert forall|k: int| k >= e implies !readable(m as nat, k) by {
            lemma_not_readable_above(m as nat, top as nat, k);
        }
        lemma_floor(n, top as nat, e as int, f@, r@);
        assert(!readable(m as nat, e as int));
    }
    let mut down: bool = false;
    let mut up: bool = false;
    while !down && !up
        invariant
            0 < m < INF,
            n == magnitude_units(m as nat),
            -1074 <= e <= top <= 342,
            d@ == ten(top as nat) * one(),
            n * ten((top - e) as nat) == f@ * d@ + r@,
            r@ < d@,
            f@ == floor_multiple(n, e as int),
            upper_half(n, e as int) == (2 * r@ >= d@),
            down == reads_back(f@, e as int, m as nat),
            up == reads_back(f@ + 1, e as int, m as nat),
            forall|k: int| k > e ==> !readable(m as nat, k),
        decreases e + 1074,
    {
        proof {
            lemma_readable_below(m as nat);
            assert(!readable(m as nat, e as int));
        }
        let ghost f0 = f@;
        let ghost r0 = r@;
        let q: u32 = next_digit(&mut r, &d);
        f.mul_add(10, q);
        e = e - 1;
        proof {
            let t = ten((top - e - 1) as nat) as int;
            let dd = d@ as int;
            assert(n * (10 * t) == (n * t) * 10) by (nonlinear_arith);
            assert((f0 * dd + r0) * 10 == (f0 * 10 + q) * dd + r@) by (nonlinear_arith)
                requires
                    r0 * 10 == q * dd + r@,
            ;
            lemma_floor(n, top as nat, e as int, f@, r@);
        }
        down = decimal_number(false, &f, e as i128).magnitude_bits() == m;
        let mut g = f.copy();
        g.mul_add(1, 1);
        up = decimal_number(false, &g, e as i128).magnitude_bits() == m;
    }
    proof {
        assert(is_shortest(m as nat, e as int));
        lemma_shortest(m as nat, e as int);
    }
    let mut twice = r.copy();
    twice.mul_add(2, 0);
    if !(down && !(up && !twice.less(&d))) {
        f.mul_add(1, 1);
    }
    let digits = nat_numeral(&f);
    let v = chars_of(digits.as_str());
    push_placed(&mut s, v.as_slice(), e);
    s
}

// ---------------------------------------------------------------- what is written reads back

pub proof fn lemma_numeral_number(n: nat)
    ensures
        number(numeral(n)) == n,
        all_digits(numeral(n)),
        numeral(n).len() > 0,
    decreases n,
{
    lemma_numeral_digits(n);
    if n >= 10 {
        lemma_numeral_number(n / 10);
        assert(numeral(n).drop_last() =~= numeral(n / 10));
        lemma_digit(n % 10);
    } else {
        assert(numeral(n).drop_last() =~= seq![]);
        assert(number(seq![]) == 0);
        lemma_digit(n);
    }
}

pub proof fn lemma_digits_up_to(s: Seq<char>, i: int, n: int)
    requires
        0 <= i <= n <= s.len(),
        forall|k: int| i <= k < n ==> is_digit(#[trigger] s[k]),
        n < s.len() ==> !is_digit(s[n]),
    ensures
        digits_end(s, i) == n,
    decreases n - i,
{
    if i < n {
        lemma_digits_up_to(s, i + 1, n);
    }
}

pub proof fn lemma_number_join(a: Seq<char>, b: Seq<char>)
    ensures
        number(a + b) == number(a) * ten(b.len()) + number(b),
    decreases b.len(),
{
    if b.len() == 0 {
        assert(a + b =~= a);
        assert(number(a) * 1 == number(a));
    } else {
        assert((a + b).drop_last() =~= a + b.drop_last());
        lemma_number_join(a, b.drop_last());
        let n = number(a) as int;
        let t = ten((b.len() - 1) as nat) as int;
        assert((n * t) * 10 == n * (10 * t)) by (nonlinear_arith);
    }
}

pub proof fn lemma_zeros(k: int)
    ensures
        zeros(k).len() == if k > 0 {
            k
        } else {
            0
        },
        all_digits(zeros(k)),
        number(zeros(k)) == 0,
    decreases k,
{
    if k > 0 {
        lemma_zeros(k - 1);
        assert(zeros(k).drop_last() =~= zeros(k - 1));
    }
}

/// A short numeral that is filled up with zeros keeps its number.
pub proof fn lemma_filled(r: nat, w: nat)
    requires
        w <= 4,
        r < ten(w),
        0 < w,
    ensures
        zero_fill(numeral(r), w).len() == w,
        all_digits(zero_fill(numeral(r), w)),
        number(zero_fill(numeral(r), w)) == r,
{
    let t = numeral(r);
    lemma_numeral_number(r);
    reveal_with_fuel(numeral, 5);
    reveal_with_fuel(ten, 5);
    assert(t.len() <= w);
    let z = zeros(w - t.len());
    lemma_zeros(w - t.len());
    lemma_number_join(z, t);
    assert(0 * ten(t.len()) == 0);
    let f = zero_fill(t, w);
    assert forall|i: int| 0 <= i < f.len() implies is_digit(#[trigger] f[i]) by {
        if i >= z.len() {
            assert(f[i] == t[i - z.len()]);
        } else {
            assert(f[i] == z[i]);
        }
    }
}

/// There is a largest power of ten of which a multiple reads back, where none above `e` is.
proof fn lemma_shortest_exists(m: nat, e: int)
    requires
        0 < m < INF,
        e >= -1074,
        forall|k: int| k > e ==> !readable(m, k),
    ensures
        is_shortest(m, shortest_scale(m)),
    decreases e + 1074,
{
    if readable(m, e) {
        assert(is_shortest(m, e));
    } else {
        lemma_readable_below(m);
        assert forall|k: int| k > e - 1 implies !readable(m, k) by {
            if k == e {
            }
        }
        lemma_shortest_exists(m, e - 1);
    }
}

/// The shortest digits read back.
proof fn lemma_shortest_reads(m: nat)
    requires
        0 < m < INF,
    ensures
        reads_back(shortest_digits(m), shortest_scale(m), m),
{
    lemma_magnitude_bound(m + 1);
    lemma_ten_large(342);
    lemma_pow2_strictly_increases(1024, 1026);
    lemma_pow2_adds(1024, 1074);
    lemma_mul_inequality(pow2(1024) as int, ten(342) as int, one() as int);
    assert(ten(342) * one() >= magnitude_units(m + 1));
    assert forall|k: int| k > 342 implies !readable(m, k) by {
        lemma_not_readable_above(m, 342, k);
    }
    lemma_shortest_exists(m, 342);
}

/// Digits with a point among them, or with zeros behind them, give the number that they were
/// made of.
proof fn lemma_placed_reads(negative: bool, k: nat, e: int)
    ensures
        parsed_decimal(negative, place_point(numeral(k), e)) == Some(scaled(negative, k, e)),
        place_point(numeral(k), e).len() > 0,
        is_digit(place_point(numeral(k), e)[0]),
        forall|i: int|
            0 <= i < place_point(numeral(k), e).len() ==> is_digit(
                #[trigger] place_point(numeral(k), e)[i],
            ) || place_point(numeral(k), e)[i] == '.',
{
    let t = numeral(k);
    let b = place_point(t, e);
    lemma_numeral_number(k);
    assert(is_digit(t[0]));
    if e >= 0 {
        let z = zeros(e);
        lemma_zeros(e);
        assert forall|i: int| 0 <= i < b.len() implies is_digit(#[trigger] b[i]) by {
            if i >= t.len() {
                assert(b[i] == z[i - t.len()]);
            } else {
                assert(b[i] == t[i]);
            }
        }
        lemma_digits_up_to(b, 0, b.len() as int);
        assert(b.take(b.len() as int) + b.subrange(b.len() as int, b.len() as int) =~= b);
        lemma_number_join(t, z);
        assert(number(b) == k * ten(e as nat));
        assert(ten(0) == 1);
        assert(k * ten(e as nat) * 1 == k * ten(e as nat));
    } else if t.len() > -e {
        let n = t.len() + e;
        let x = t.take(n);
        let y = t.skip(n);
        assert(b =~= x + seq!['.'] + y);
        assert forall|i: int| 0 <= i < n implies is_digit(#[trigger] b[i]) by {
            assert(b[i] == t[i]);
        }
        assert(b[n] == '.');
        lemma_digits_up_to(b, 0, n);
        assert forall|i: int| n + 1 <= i < b.len() implies is_digit(#[trigger] b[i]) by {
            assert(b[i] == t[i - 1]);
        }
        lemma_digits_up_to(b, n + 1, b.len() as int);
        assert(b.take(n) + b.subrange(n + 1, b.len() as int) =~= t);
        assert(b[0] == t[0]);
    } else {
        let z = zeros(-e - t.len());
        lemma_zeros(-e - t.len());
        assert(b =~= seq!['0', '.'] + z + t);
        assert(b[0] == '0' && b[1] == '.');
        lemma_digits_up_to(b, 0, 1);
        assert forall|i: int| 2 <= i < b.len() implies is_digit(#[trigger] b[i]) by {
            if i - 2 < z.len() {
                assert(b[i] == z[i - 2]);
            } else {
                assert(b[i] == t[i - 2 - z.len()]);
            }
        }
        lemma_digits_up_to(b, 2, b.len() as int);
        let digits = b.take(1) + b.subrange(2, b.len() as int);
        assert(b.take(1) =~= zeros(1)) by {
            lemma_zeros(1);
            assert(zeros(0) =~= seq![]);
        }
        assert(b.subrange(2, b.len() as int) =~= z + t);
        lemma_zeros(1);
        lemma_number_join(z, t);
        lemma_number_join(zeros(1), z + t);
        assert(0 * ten(t.len()) == 0);
        assert(0 * ten((z + t).len()) == 0);
        assert(number(digits) == k);
    }
}

/// A finite number that was written with as few digits as tell it apart reads back as itself.
pub proof fn lemma_display_round_trip(x: Double)
    requires
        x.finite(),
    ensures
        parsed(display(x)) == Some(x),
        display(x).len() > 0,
        is_digit(display(x)[0]) || display(x)[0] == '-',
        forall|i: int|
            0 <= i < display(x).len() ==> is_digit(#[trigger] display(x)[i]) || display(x)[i] == '.'
                || display(x)[i] == '-',
{
    let m = x.magnitude();
    let s = display(x);
    let b: Seq<char> = if m == 0 {
        seq!['0']
    } else {
        place_point(numeral(shortest_digits(m)), shortest_scale(m))
    };
    assert(s =~= sign_text(x) + b);
    if m == 0 {
        assert(numeral(0) =~= b);
        assert(place_point(numeral(0), 0) =~= b);
        lemma_placed_reads(x.negative(), 0, 0);
        lemma_zero_decimal(0);
    } else {
        lemma_placed_reads(x.negative(), shortest_digits(m), shortest_scale(m));
        lemma_shortest_reads(m);
    }
    assert(is_digit(b[0]));
    if x.negative() {
        assert(s.skip(1) =~= b);
    } else {
        assert(s =~= b);
    }
    assert(unsigned(s) =~= b);
    assert forall|i: int| 0 <= i < s.len() implies is_digit(#[trigger] s[i]) || s[i] == '.' || s[i]
        == '-' by {
        if x.negative() {
            if i > 0 {
                assert(s[i] == b[i - 1]);
            }
        } else {
            assert(s[i] == b[i]);
        }
    }
    reveal_strlit("inf");
    reveal_strlit("infinity");
    reveal_strlit("nan");
    assert(small_letter(b[0]) == b[0]);
}

} // verus!
