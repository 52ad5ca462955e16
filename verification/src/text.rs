//! Text as sequences of characters: characters, numerals, trimming, splitting, ordering.

use vstd::prelude::*;
use crate::natural::Nat;

verus! {

broadcast use vstd::string::group_string_axioms;

/// `String::push` appends one character.
pub assume_specification[ String::push ](s: &mut String, c: char)
    ensures
        final(s)@ == old(s)@.push(c),
;

// ---------------------------------------------------------------- whole texts

/// The characters of a string.
pub fn chars_of(s: &str) -> (r: Vec<char>)
    ensures
        r@ == s@,
{
    let mut v: Vec<char> = Vec::new();
    for c in it: s.chars()
        invariant
            it.seq() == s@,
            v@ == s@.take(it.index() as int),
    {
        proof {
            assert(s@.take(it.index() as int).push(c) =~= s@.take(it.index() + 1));
        }
        v.push(c);
    }
    proof {
        assert(s@.take(s@.len() as int) =~= s@);
    }
    v
}

/// The string of the given characters.
pub fn string_of(v: &[char]) -> (r: String)
    ensures
        r@ == v@,
{
    let mut s = String::new();
    let mut i: usize = 0;
    while i < v.len()
        invariant
            i <= v@.len(),
            s@ == v@.take(i as int),
        decreases v@.len() - i,
    {
        proof {
            assert(v@.take(i as int).push(v@[i as int]) =~= v@.take(i + 1));
        }
        s.push(v[i]);
        i = i + 1;
    }
    proof {
        assert(v@.take(v@.len() as int) =~= v@);
    }
    s
}

/// Whether two texts are equal.
pub fn same(a: &[char], b: &[char]) -> (r: bool)
    ensures
        r == (a@ == b@),
{
    if a.len() != b.len() {
        return false;
    }
    let mut i: usize = 0;
    while i < a.len()
        invariant
            a@.len() == b@.len(),
            i <= a@.len(),
            forall|j: int| 0 <= j < i ==> a@[j] == b@[j],
        decreases a@.len() - i,
    {
        if a[i] != b[i] {
            return false;
        }
        i = i + 1;
    }
    proof {
        assert(a@ =~= b@);
    }
    true
}

/// Whether a text is the given string.
pub fn is_str(a: &[char], b: &str) -> (r: bool)
    ensures
        r == (a@ == b@),
{
    let v = chars_of(b);
    same(a, v.as_slice())
}

/// Whether two strings hold the same characters.
pub fn eq_str(a: &str, b: &str) -> (r: bool)
    ensures
        r == (a@ == b@),
{
    let v = chars_of(a);
    is_str(v.as_slice(), b)
}

/// A new string with the characters of `s`.
pub fn own(s: &str) -> (r: String)
    ensures
        r@ == s@,
{
    let mut t = String::new();
    t.append(s);
    proof {
        assert(t@ =~= s@);
    }
    t
}

/// The part of a text from `i` to `j`.
pub fn part(s: &[char], i: usize, j: usize) -> (r: &[char])
    requires
        i <= j <= s@.len(),
    ensures
        r@ == s@.subrange(i as int, j as int),
{
    vstd::slice::slice_subrange(s, i, j)
}

/// Appends a text to another.
pub fn extend(v: &mut Vec<char>, s: &[char])
    ensures
        final(v)@ == old(v)@ + s@,
{
    let mut i: usize = 0;
    let ghost before = v@;
    assert(before + s@.take(0) =~= before);
    while i < s.len()
        invariant
            i <= s@.len(),
            v@ == before + s@.take(i as int),
        decreases s@.len() - i,
    {
        proof {
            assert((before + s@.take(i as int)).push(s@[i as int]) =~= before + s@.take(i + 1));
        }
        v.push(s[i]);
        i = i + 1;
    }
    proof {
        assert(s@.take(s@.len() as int) =~= s@);
    }
}

// ---------------------------------------------------------------- characters

/// Whether `c` is a decimal digit.
pub open spec fn is_digit(c: char) -> bool {
    '0' <= c <= '9'
}

/// The value of a decimal digit.
pub open spec fn digit_value(c: char) -> nat {
    (c as u32 - '0' as u32) as nat
}

/// The digit of value `d`.
pub open spec fn digit(d: nat) -> char {
    ('0' as u32 + d) as char
}

/// Whether `c` has the Unicode property White_Space.
pub open spec fn is_space(c: char) -> bool {
    let u = c as u32;
    ||| 0x9 <= u <= 0xd
    ||| u == 0x20
    ||| u == 0x85
    ||| u == 0xa0
    ||| u == 0x1680
    ||| 0x2000 <= u <= 0x200a
    ||| u == 0x2028
    ||| u == 0x2029
    ||| u == 0x202f
    ||| u == 0x205f
    ||| u == 0x3000
}

/// Whether `c` has the Unicode property White_Space.
pub fn space(c: char) -> (r: bool)
    ensures
        r == is_space(c),
{
    let u: u32 = c as u32;
    (0x9 <= u && u <= 0xd) || u == 0x20 || u == 0x85 || u == 0xa0 || u == 0x1680 || (0x2000 <= u
        && u <= 0x200a) || u == 0x2028 || u == 0x2029 || u == 0x202f || u == 0x205f || u == 0x3000
}

/// Whether `c` is a decimal digit.
pub fn decimal(c: char) -> (r: bool)
    ensures
        r == is_digit(c),
{
    '0' <= c && c <= '9'
}

/// The digit of value `d`.
pub fn digit_char(d: u32) -> (r: char)
    requires
        d < 10,
    ensures
        r == digit(d as nat),
        is_digit(r),
{
    ((0x30 + d) as u8) as char
}

// ---------------------------------------------------------------- order

/// Whether `a` comes before `b`, character by character.
pub open spec fn before(a: Seq<char>, b: Seq<char>) -> bool
    decreases b.len(),
{
    if b.len() == 0 {
        false
    } else if a.len() == 0 {
        true
    } else if a[0] == b[0] {
        before(a.skip(1), b.skip(1))
    } else {
        a[0] < b[0]
    }
}

/// Whether `a` comes before `b`, character by character.
pub fn comes_before(a: &[char], b: &[char]) -> (r: bool)
    ensures
        r == before(a@, b@),
{
    let mut i: usize = 0;
    assert(a@.skip(0) =~= a@ && b@.skip(0) =~= b@);
    while i < a.len() && i < b.len() && a[i] == b[i]
        invariant
            i <= a@.len(),
            i <= b@.len(),
            before(a@, b@) == before(a@.skip(i as int), b@.skip(i as int)),
        decreases a@.len() - i,
    {
        proof {
            assert(a@.skip(i as int).skip(1) =~= a@.skip(i + 1));
            assert(b@.skip(i as int).skip(1) =~= b@.skip(i + 1));
        }
        i = i + 1;
    }
    if i >= b.len() {
        false
    } else if i >= a.len() {
        true
    } else {
        a[i] < b[i]
    }
}

/// Whether `a` comes before `b`, character by character.
pub fn str_before(a: &str, b: &str) -> (r: bool)
    ensures
        r == before(a@, b@),
{
    let v = chars_of(a);
    let w = chars_of(b);
    comes_before(v.as_slice(), w.as_slice())
}

// ---------------------------------------------------------------- numerals

/// The decimal numeral of `n`, without leading zeros.
pub open spec fn numeral(n: nat) -> Seq<char>
    decreases n,
{
    if n < 10 {
        seq![digit(n)]
    } else {
        numeral(n / 10).push(digit(n % 10))
    }
}

/// The decimal numeral of `i`, with a sign when negative.
pub open spec fn int_text(i: int) -> Seq<char> {
    if i < 0 {
        seq!['-'] + numeral((-i) as nat)
    } else {
        numeral(i as nat)
    }
}

/// `k` zeros.
pub open spec fn zeros(k: int) -> Seq<char>
    decreases k,
{
    if k <= 0 {
        seq![]
    } else {
        zeros(k - 1).push('0')
    }
}

/// `t`, filled up on the left with zeros to `w` characters.
pub open spec fn zero_fill(t: Seq<char>, w: nat) -> Seq<char> {
    zeros(w - t.len()) + t
}

pub proof fn lemma_digit(d: nat)
    requires
        d < 10,
    ensures
        is_digit(digit(d)),
        digit_value(digit(d)) == d,
{
}

/// A numeral has only digits, and at least one.
pub proof fn lemma_numeral_digits(n: nat)
    ensures
        numeral(n).len() > 0,
        forall|i: int| 0 <= i < numeral(n).len() ==> is_digit(#[trigger] numeral(n)[i]),
    decreases n,
{
    if n >= 10 {
        lemma_numeral_digits(n / 10);
    }
}

/// Appends `k` zeros.
pub fn push_zeros(s: &mut String, k: u64)
    ensures
        final(s)@ == old(s)@ + zeros(k as int),
{
    let mut i: u64 = 0;
    let ghost before = s@;
    assert(before + zeros(0) =~= before);
    while i < k
        invariant
            i <= k,
            s@ == before + zeros(i as int),
        decreases k - i,
    {
        proof {
            assert((before + zeros(i as int)).push('0') =~= before + zeros(i + 1));
        }
        s.push('0');
        i = i + 1;
    }
}

/// The digits of `n`, least significant first.
fn reversed_digits(n: &Nat) -> (r: Vec<char>)
    ensures
        r@.reverse() == numeral(n@),
{
    let mut out: Vec<char> = Vec::new();
    let mut rest = n.copy();
    let ten = Nat::from_u64(10);
    assert(numeral(rest@) + out@.reverse() =~= numeral(n@));
    while !rest.less(&ten)
        invariant
            ten@ == 10,
            numeral(rest@) + out@.reverse() == numeral(n@),
        decreases rest@,
    {
        let ghost before = rest@;
        let ghost prev = out@;
        let d: u32 = rest.div_small(10);
        let c = digit_char(d);
        out.push(c);
        proof {
            assert(before == rest@ * 10 + d);
            assert(before / 10 == rest@ && before % 10 == d);
            assert(out@.reverse() =~= seq![c] + prev.reverse());
            assert(numeral(before) + prev.reverse() =~= numeral(rest@) + out@.reverse());
        }
    }
    let d: u32 = rest.div_small(10);
    let c = digit_char(d);
    let ghost prev = out@;
    out.push(c);
    proof {
        assert(out@.reverse() =~= seq![c] + prev.reverse());
    }
    out
}

/// The decimal numeral of `n`.
pub fn nat_numeral(n: &Nat) -> (r: String)
    ensures
        r@ == numeral(n@),
{
    let v = reversed_digits(n);
    let mut s = String::new();
    let mut i: usize = v.len();
    while i > 0
        invariant
            i <= v@.len(),
            s@ == v@.reverse().take(v@.len() - i),
        decreases i,
    {
        proof {
            let r = v@.reverse();
            assert(r.take(v@.len() - i).push(r[v@.len() - i]) =~= r.take(v@.len() - i + 1));
        }
        s.push(v[i - 1]);
        i = i - 1;
    }
    proof {
        assert(v@.reverse().take(v@.len() as int) =~= v@.reverse());
    }
    s
}

/// The decimal numeral of `n`.
pub fn u64_numeral(n: u64) -> (r: String)
    ensures
        r@ == numeral(n as nat),
{
    let mut rev: Vec<char> = Vec::new();
    let mut rest: u64 = n;
    assert(numeral(rest as nat) + rev@.reverse() =~= numeral(n as nat));
    while rest >= 10
        invariant
            numeral(rest as nat) + rev@.reverse() == numeral(n as nat),
        decreases rest,
    {
        let d: u32 = (rest % 10) as u32;
        let c = digit_char(d);
        let ghost prev = rev@;
        rev.push(c);
        proof {
            assert(rev@.reverse() =~= seq![c] + prev.reverse());
            assert(numeral(rest as nat) + prev.reverse() =~= numeral((rest / 10) as nat)
                + rev@.reverse());
        }
        rest = rest / 10;
    }
    let c = digit_char(rest as u32);
    let ghost prev = rev@;
    rev.push(c);
    proof {
        assert(rev@.reverse() =~= seq![c] + prev.reverse());
        assert(rev@.reverse() =~= numeral(n as nat));
    }
    let mut s = String::new();
    let mut i: usize = rev.len();
    while i > 0
        invariant
            i <= rev@.len(),
            s@ == rev@.reverse().take(rev@.len() - i),
        decreases i,
    {
        proof {
            let r = rev@.reverse();
            assert(r.take(rev@.len() - i).push(r[rev@.len() - i]) =~= r.take(rev@.len() - i + 1));
        }
        s.push(rev[i - 1]);
        i = i - 1;
    }
    proof {
        assert(rev@.reverse().take(rev@.len() as int) =~= rev@.reverse());
    }
    s
}

/// The decimal numeral of `i`.
pub fn i64_numeral(i: i64) -> (r: String)
    ensures
        r@ == int_text(i as int),
{
    if i < 0 {
        let m: u64 = (-(i as i128)) as u64;
        let mut s = String::new();
        s.push('-');
        let t = u64_numeral(m);
        s.append(t.as_str());
        proof {
            assert(s@ =~= seq!['-'] + numeral(m as nat));
        }
        s
    } else {
        u64_numeral(i as u64)
    }
}

/// The numeral of `n`, filled up on the left with zeros to `w` characters.
pub fn filled(n: u64, w: usize) -> (r: String)
    ensures
        r@ == zero_fill(numeral(n as nat), w as nat),
{
    let t = u64_numeral(n);
    let len: usize = chars_of(t.as_str()).len();
    let mut s = String::new();
    if len < w {
        push_zeros(&mut s, (w - len) as u64);
    }
    s.append(t.as_str());
    proof {
        assert(s@ =~= zeros(w - len) + t@);
    }
    s
}

// ---------------------------------------------------------------- parts

/// The views of texts.
pub open spec fn texts(v: Seq<Vec<char>>) -> Seq<Seq<char>> {
    Seq::new(v.len(), |i: int| v[i]@)
}

/// The views of strings.
pub open spec fn views(v: Seq<String>) -> Seq<Seq<char>> {
    Seq::new(v.len(), |i: int| v[i]@)
}

/// Where the white space at the front ends.
pub open spec fn space_end(s: Seq<char>, i: int) -> int
    decreases s.len() - i,
{
    if 0 <= i < s.len() && is_space(s[i]) {
        space_end(s, i + 1)
    } else {
        i
    }
}

/// Where the white space at the back starts.
pub open spec fn space_start(s: Seq<char>, i: int) -> int
    decreases i,
{
    if 0 < i <= s.len() && is_space(s[i - 1]) {
        space_start(s, i - 1)
    } else {
        i
    }
}

/// A text without the white space at its ends.
pub open spec fn trimmed(s: Seq<char>) -> Seq<char> {
    let a = space_end(s, 0);
    let b = space_start(s, s.len() as int);
    if a < b {
        s.subrange(a, b)
    } else {
        seq![]
    }
}

/// A text without the white space at its ends.
pub fn trim(s: &[char]) -> (r: &[char])
    ensures
        r@ == trimmed(s@),
{
    let mut a: usize = 0;
    while a < s.len() && space(s[a])
        invariant
            a <= s@.len(),
            space_end(s@, 0) == space_end(s@, a as int),
        decreases s@.len() - a,
    {
        a = a + 1;
    }
    let mut b: usize = s.len();
    while b > 0 && space(s[b - 1])
        invariant
            b <= s@.len(),
            space_start(s@, s@.len() as int) == space_start(s@, b as int),
        decreases b,
    {
        b = b - 1;
    }
    if a < b {
        part(s, a, b)
    } else {
        let r = part(s, 0, 0);
        assert(r@ =~= seq![]);
        r
    }
}

/// Where `c` is first found from `i` on; the end where it is not.
pub open spec fn find_from(s: Seq<char>, c: char, i: int) -> int
    decreases s.len() - i,
{
    if i < 0 || i >= s.len() {
        s.len() as int
    } else if s[i] == c {
        i
    } else {
        find_from(s, c, i + 1)
    }
}

pub proof fn lemma_find(s: Seq<char>, c: char, i: int)
    requires
        0 <= i <= s.len(),
    ensures
        i <= find_from(s, c, i) <= s.len(),
        find_from(s, c, i) < s.len() ==> s[find_from(s, c, i)] == c,
    decreases s.len() - i,
{
    if i < s.len() && s[i] != c {
        lemma_find(s, c, i + 1);
    }
}

/// Where `c` is first found from `i` on; the end where it is not.
pub fn find(s: &[char], c: char, i: usize) -> (r: usize)
    requires
        i <= s@.len(),
    ensures
        r == find_from(s@, c, i as int),
        i <= r <= s@.len(),
{
    let mut k: usize = i;
    while k < s.len() && s[k] != c
        invariant
            i <= k <= s@.len(),
            find_from(s@, c, i as int) == find_from(s@, c, k as int),
        decreases s@.len() - k,
    {
        k = k + 1;
    }
    k
}

/// The parts of a text between the places where `c` stands.
pub open spec fn split(s: Seq<char>, c: char) -> Seq<Seq<char>>
    decreases s.len(),
{
    let i = find_from(s, c, 0);
    proof {
        lemma_find(s, c, 0);
    }
    if i >= s.len() || i < 0 {
        seq![s]
    } else {
        seq![s.take(i)] + split(s.skip(i + 1), c)
    }
}

/// A copy of a text.
pub fn copy_text(s: &[char]) -> (r: Vec<char>)
    ensures
        r@ == s@,
{
    let mut v: Vec<char> = Vec::new();
    extend(&mut v, s);
    assert(v@ =~= s@);
    v
}

proof fn lemma_find_skip(s: Seq<char>, c: char, a: int, i: int)
    requires
        0 <= a <= i <= s.len(),
    ensures
        find_from(s.skip(a), c, i - a) == find_from(s, c, i) - a,
    decreases s.len() - i,
{
    if i < s.len() && s[i] != c {
        lemma_find_skip(s, c, a, i + 1);
    }
}

/// The parts of a text between the places where `c` stands.
pub fn split_at(s: &[char], c: char) -> (r: Vec<Vec<char>>)
    ensures
        texts(r@) == split(s@, c),
{
    let mut out: Vec<Vec<char>> = Vec::new();
    let mut a: usize = 0;
    assert(s@.skip(0) =~= s@);
    assert(texts(out@) + split(s@, c) =~= split(s@, c));
    loop
        invariant
            a <= s@.len(),
            texts(out@) + split(s@.skip(a as int), c) == split(s@, c),
        decreases s@.len() - a,
    {
        let i: usize = find(s, c, a);
        let ghost rest = s@.skip(a as int);
        let ghost held = texts(out@);
        proof {
            lemma_find_skip(s@, c, a as int, a as int);
            lemma_find(rest, c, 0);
            assert(s@.subrange(a as int, i as int) =~= rest.take(i - a));
        }
        let p = copy_text(part(s, a, i));
        out.push(p);
        proof {
            assert(texts(out@) =~= held.push(p@));
        }
        if i >= s.len() {
            proof {
                assert(rest.take(i - a) =~= rest);
                assert(held + seq![rest] =~= texts(out@));
            }
            return out;
        }
        proof {
            assert(rest.skip(i - a + 1) =~= s@.skip(i + 1));
            assert(held + (seq![rest.take(i - a)] + split(s@.skip(i + 1), c)) =~= texts(out@)
                + split(s@.skip(i + 1), c));
        }
        a = i + 1;
    }
}

/// A line without the carriage return at its end.
pub open spec fn without_return(s: Seq<char>) -> Seq<char> {
    if s.len() > 0 && s.last() == '\r' {
        s.drop_last()
    } else {
        s
    }
}

/// The lines of a text. A line ends with a line feed, which a carriage return may precede; the
/// last one need not.
pub open spec fn lines(s: Seq<char>) -> Seq<Seq<char>>
    decreases s.len(),
{
    let i = find_from(s, '\n', 0);
    proof {
        lemma_find(s, '\n', 0);
    }
    if s.len() == 0 {
        seq![]
    } else if i >= s.len() || i < 0 {
        seq![s]
    } else {
        seq![without_return(s.take(i))] + lines(s.skip(i + 1))
    }
}

/// The lines of a text.
pub fn lines_of(s: &[char]) -> (r: Vec<Vec<char>>)
    ensures
        texts(r@) == lines(s@),
{
    let mut out: Vec<Vec<char>> = Vec::new();
    let mut a: usize = 0;
    assert(s@.skip(0) =~= s@);
    assert(texts(out@) + lines(s@) =~= lines(s@));
    while a < s.len()
        invariant
            a <= s@.len(),
            texts(out@) + lines(s@.skip(a as int)) == lines(s@),
        decreases s@.len() - a,
    {
        let i: usize = find(s, '\n', a);
        let ghost rest = s@.skip(a as int);
        let ghost held = texts(out@);
        proof {
            lemma_find_skip(s@, '\n', a as int, a as int);
            lemma_find(rest, '\n', 0);
            assert(s@.subrange(a as int, i as int) =~= rest.take(i - a));
        }
        if i >= s.len() {
            let p = copy_text(part(s, a, i));
            out.push(p);
            proof {
                assert(rest.take(i - a) =~= rest);
                assert(texts(out@) =~= held + seq![rest]);
            }
            return out;
        }
        let end: usize = if i > a && s[i - 1] == '\r' {
            i - 1
        } else {
            i
        };
        let p = copy_text(part(s, a, end));
        out.push(p);
        proof {
            assert(p@ =~= without_return(rest.take(i - a)));
            assert(rest.skip(i - a + 1) =~= s@.skip(i + 1));
            assert(texts(out@) =~= held.push(p@));
            assert(held + (seq![p@] + lines(s@.skip(i + 1))) =~= texts(out@) + lines(
                s@.skip(i + 1),
            ));
        }
        a = i + 1;
    }
    proof {
        assert(s@.skip(a as int) =~= seq![]);
        assert(texts(out@) + lines(s@.skip(a as int)) =~= texts(out@));
    }
    out
}

/// Where the characters that are no white space end, from `i` on.
pub open spec fn word_end(s: Seq<char>, i: int) -> int
    decreases s.len() - i,
{
    if 0 <= i < s.len() && !is_space(s[i]) {
        word_end(s, i + 1)
    } else {
        i
    }
}

pub proof fn lemma_word_end(s: Seq<char>, i: int)
    requires
        0 <= i <= s.len(),
    ensures
        i <= word_end(s, i) <= s.len(),
        i < s.len() && !is_space(s[i]) ==> i < word_end(s, i),
        i <= space_end(s, i) <= s.len(),
        space_end(s, i) < s.len() ==> !is_space(s[space_end(s, i)]),
    decreases s.len() - i,
{
    if i < s.len() {
        lemma_word_end(s, i + 1);
    }
}

/// The words of a text from `i` on: what white space separates.
pub open spec fn words(s: Seq<char>, i: int) -> Seq<Seq<char>>
    decreases s.len() - i,
{
    let a = space_end(s, i);
    let b = word_end(s, a);
    proof {
        if 0 <= i <= s.len() {
            lemma_word_end(s, i);
            lemma_word_end(s, a);
        }
    }
    if i < 0 || a >= s.len() {
        seq![]
    } else {
        seq![s.subrange(a, b)] + words(s, b)
    }
}

/// The words of a text: what white space separates.
pub fn words_of(s: &[char]) -> (r: Vec<Vec<char>>)
    ensures
        texts(r@) == words(s@, 0),
{
    let mut out: Vec<Vec<char>> = Vec::new();
    let mut i: usize = 0;
    assert(texts(out@) + words(s@, 0) =~= words(s@, 0));
    loop
        invariant
            i <= s@.len(),
            texts(out@) + words(s@, i as int) == words(s@, 0),
        decreases s@.len() - i,
    {
        let ghost held = texts(out@);
        let mut a: usize = i;
        while a < s.len() && space(s[a])
            invariant
                i <= a <= s@.len(),
                space_end(s@, i as int) == space_end(s@, a as int),
            decreases s@.len() - a,
        {
            a = a + 1;
        }
        if a >= s.len() {
            assert(held + words(s@, i as int) =~= held);
            return out;
        }
        let mut b: usize = a;
        while b < s.len() && !space(s[b])
            invariant
                a <= b <= s@.len(),
                word_end(s@, a as int) == word_end(s@, b as int),
            decreases s@.len() - b,
        {
            b = b + 1;
        }
        proof {
            lemma_word_end(s@, a as int);
        }
        let p = copy_text(part(s, a, b));
        out.push(p);
        proof {
            assert(texts(out@) =~= held.push(p@));
            assert(held + (seq![p@] + words(s@, b as int)) =~= texts(out@) + words(s@, b as int));
        }
        i = b;
    }
}

/// Whether `t` starts with `w`.
pub open spec fn starts(t: Seq<char>, w: Seq<char>) -> bool {
    t.len() >= w.len() && t.take(w.len() as int) == w
}

/// Whether `t` starts with `w`.
pub fn starts_with(t: &[char], w: &str) -> (r: bool)
    ensures
        r == starts(t@, w@),
{
    let v = chars_of(w);
    if t.len() < v.len() {
        return false;
    }
    let h = part(t, 0, v.len());
    assert(h@ =~= t@.take(w@.len() as int));
    same(h, v.as_slice())
}

/// Whether `w` stands in `t` at `i` or later.
pub open spec fn holds_from(t: Seq<char>, w: Seq<char>, i: int) -> bool
    decreases t.len() + 1 - i,
{
    if i < 0 || i > t.len() {
        false
    } else {
        starts(t.skip(i), w) || holds_from(t, w, i + 1)
    }
}

/// Whether `w` stands somewhere in `t`.
pub fn contains(t: &[char], w: &str) -> (r: bool)
    ensures
        r == holds_from(t@, w@, 0),
{
    let mut i: usize = 0;
    let n: usize = t.len();
    while i < n
        invariant
            i <= n == t@.len(),
            holds_from(t@, w@, 0) == holds_from(t@, w@, i as int),
        decreases n - i,
    {
        let rest = part(t, i, n);
        assert(rest@ =~= t@.skip(i as int));
        if starts_with(rest, w) {
            return true;
        }
        i = i + 1;
    }
    let rest = part(t, n, n);
    assert(rest@ =~= t@.skip(n as int));
    assert(!holds_from(t@, w@, n + 1));
    starts_with(rest, w)
}

// ---------------------------------------------------------------- joining

/// The texts with `sep` between them.
pub open spec fn joined(ts: Seq<Seq<char>>, sep: Seq<char>) -> Seq<char>
    decreases ts.len(),
{
    if ts.len() == 0 {
        seq![]
    } else if ts.len() == 1 {
        ts[0]
    } else {
        joined(ts.drop_last(), sep) + sep + ts.last()
    }
}

/// The strings with `sep` between them.
pub fn join(v: &Vec<String>, sep: &str) -> (r: String)
    ensures
        r@ == joined(views(v@), sep@),
{
    let mut s = String::new();
    let mut i: usize = 0;
    let ghost all = views(v@);
    assert(s@ =~= joined(all.take(0), sep@));
    while i < v.len()
        invariant
            i <= v@.len(),
            all == views(v@),
            s@ == joined(all.take(i as int), sep@),
        decreases v@.len() - i,
    {
        let ghost held = s@;
        if i > 0 {
            s.append(sep);
        }
        s.append(v[i].as_str());
        proof {
            let t = all.take(i + 1);
            assert(t.drop_last() =~= all.take(i as int));
            assert(t.last() == v@[i as int]@);
            if i == 0 {
                assert(s@ =~= t[0]);
            }
        }
        i = i + 1;
    }
    proof {
        assert(all.take(all.len() as int) =~= all);
    }
    s
}

/// The decimal numeral of `n`.
pub fn u128_numeral(n: u128) -> (r: String)
    ensures
        r@ == numeral(n as nat),
{
    let mut a = Nat::from_u64((n / 0x1_0000_0000_0000_0000) as u64);
    a.shift(64);
    proof {
        vstd::arithmetic::power2::lemma2_to64();
    }
    a.plus(&Nat::from_u64((n % 0x1_0000_0000_0000_0000) as u64));
    nat_numeral(&a)
}

/// The number of bytes of a character in UTF-8.
pub open spec fn width(c: char) -> nat {
    if (c as u32) < 0x80 {
        1
    } else if (c as u32) < 0x800 {
        2
    } else if (c as u32) < 0x1_0000 {
        3
    } else {
        4
    }
}

/// The number of bytes of the first `k` characters in UTF-8.
pub open spec fn bytes_before(s: Seq<char>, k: int) -> nat
    decreases k,
{
    if k <= 0 {
        0
    } else {
        bytes_before(s, k - 1) + width(s[k - 1])
    }
}

/// The number of bytes of a character in UTF-8.
pub fn char_width(c: char) -> (r: usize)
    ensures
        r == width(c),
{
    let u: u32 = c as u32;
    if u < 0x80 {
        1
    } else if u < 0x800 {
        2
    } else if u < 0x1_0000 {
        3
    } else {
        4
    }
}

} // verus!
