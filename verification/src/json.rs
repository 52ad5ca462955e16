//! Reading and writing JSON: just what the program needs to read its configuration and to
//! write its snapshots.

use vstd::prelude::*;
use vstd::arithmetic::power2::lemma_pow2_pos;
use vstd::arithmetic::mul::lemma_mul_is_commutative;
use vstd::arithmetic::div_mod::lemma_fundamental_div_mod;
use crate::decimal::{
    all_digits, digits_end, display, display_text, lemma_numeral_number, number, parse_double,
    parsed, small_letter, ten, unsigned,
};
use crate::double::{
    assemble, is_whole, lemma_magnitude_order, lemma_order, lemma_rounded_exact, lemma_whole_exact,
    less, nearest, one, product, quotient, saturated, truncated, whole, with_sign, Double,
};
use crate::table::{lookup, put};
use crate::text::{
    chars_of, decimal, eq_str, i64_numeral, int_text, is_digit, is_space, numeral, own, part, space,
    str_before, string_of, u64_numeral,
};

verus! {

broadcast use vstd::string::group_string_axioms;

/// A JSON value.
#[derive(Debug, PartialEq)]
pub enum Value {
    Null,
    Bool(bool),
    Num(Double),
    Str(String),
    Arr(Vec<Value>),
    /// The entries in the order of their keys, each key once: an unchanged object is written
    /// with unchanged bytes.
    Obj(Vec<(String, Value)>),
}

/// What a JSON value holds.
pub ghost enum Json {
    Null,
    Bool(bool),
    Num(Double),
    Str(Seq<char>),
    Arr(Seq<Json>),
    Obj(Seq<(Seq<char>, Json)>),
}

/// What `v` holds.
pub open spec fn json(v: Value) -> Json
    decreases v,
{
    match v {
        Value::Null => Json::Null,
        Value::Bool(b) => Json::Bool(b),
        Value::Num(n) => Json::Num(n),
        Value::Str(s) => Json::Str(s@),
        Value::Arr(a) => Json::Arr(
            Seq::new(
                a@.len(),
                |i: int|
                    if 0 <= i < a@.len() {
                        json(a@[i])
                    } else {
                        Json::Null
                    },
            ),
        ),
        Value::Obj(m) => Json::Obj(
            Seq::new(
                m@.len(),
                |i: int|
                    if 0 <= i < m@.len() {
                        (m@[i].0@, json(m@[i].1))
                    } else {
                        (seq![], Json::Null)
                    },
            ),
        ),
    }
}

impl View for Value {
    type V = Json;

    open spec fn view(&self) -> Json {
        json(*self)
    }
}

fn copy_value(v: &Value) -> (r: Value)
    ensures
        r@ == v@,
    decreases v,
{
    match v {
        Value::Null => Value::Null,
        Value::Bool(b) => Value::Bool(*b),
        Value::Num(n) => Value::Num(*n),
        Value::Str(s) => Value::Str(own(s.as_str())),
        Value::Arr(a) => {
            let mut out: Vec<Value> = Vec::new();
            let mut i: usize = 0;
            while i < a.len()
                invariant
                    i <= a@.len(),
                    out@.len() == i,
                    *v == Value::Arr(*a),
                    forall|j: int| 0 <= j < i ==> (#[trigger] out@[j])@ == a@[j]@,
                decreases a@.len() - i,
            {
                assert(decreases_to!(v => v->Arr_0@[i as int]));
                out.push(copy_value(&a[i]));
                i = i + 1;
            }
            let r = Value::Arr(out);
            assert(r@->Arr_0 =~= v@->Arr_0);
            r
        },
        Value::Obj(m) => {
            let mut out: Vec<(String, Value)> = Vec::new();
            let mut i: usize = 0;
            while i < m.len()
                invariant
                    i <= m@.len(),
                    out@.len() == i,
                    *v == Value::Obj(*m),
                    forall|j: int|
                        0 <= j < i ==> (#[trigger] out@[j]).0@ == m@[j].0@ && out@[j].1@
                            == m@[j].1@,
                decreases m@.len() - i,
            {
                assert(decreases_to!(v => v->Obj_0@[i as int].1));
                out.push((own(m[i].0.as_str()), copy_value(&m[i].1)));
                i = i + 1;
            }
            let r = Value::Obj(out);
            assert(r@->Obj_0 =~= v@->Obj_0);
            r
        },
    }
}

impl Clone for Value {
    fn clone(&self) -> (r: Value)
        ensures
            r@ == self@,
    {
        copy_value(self)
    }
}

// ---------------------------------------------------------------- objects

/// The member `k` of an object.
pub open spec fn member(j: Json, k: Seq<char>) -> Option<Json> {
    match j {
        Json::Obj(m) => lookup(m, k),
        _ => None,
    }
}

/// The text member `k`, or `d` where there is none.
pub open spec fn text_member(j: Json, k: Seq<char>, d: Seq<char>) -> Seq<char> {
    match member(j, k) {
        Some(Json::Str(s)) => s,
        _ => d,
    }
}

/// The number member `k`, or `d` where there is none.
pub open spec fn num_member(j: Json, k: Seq<char>, d: Double) -> Double {
    match member(j, k) {
        Some(Json::Num(n)) => n,
        _ => d,
    }
}

/// The truth member `k`, or `d` where there is none.
pub open spec fn bool_member(j: Json, k: Seq<char>, d: bool) -> bool {
    match member(j, k) {
        Some(Json::Bool(b)) => b,
        _ => d,
    }
}

impl Value {
    /// The member `key` of an object.
    pub fn get(&self, key: &str) -> (r: Option<&Value>)
        ensures
            match r {
                Some(v) => member(self@, key@) == Some(v@),
                None => member(self@, key@) is None,
            },
    {
        match self {
            Value::Obj(m) => {
                let ghost e = self@->Obj_0;
                let mut i: usize = 0;
                assert(e.skip(0) =~= e);
                while i < m.len()
                    invariant
                        i <= m@.len(),
                        e == self@->Obj_0,
                        *self == Value::Obj(*m),
                        lookup(e, key@) == lookup(e.skip(i as int), key@),
                    decreases m@.len() - i,
                {
                    proof {
                        assert(e.skip(i as int).skip(1) =~= e.skip(i + 1));
                        assert(e[i as int] == (m@[i as int].0@, json(m@[i as int].1)));
                    }
                    if eq_str(m[i].0.as_str(), key) {
                        return Some(&m[i].1);
                    }
                    i = i + 1;
                }
                None
            },
            _ => None,
        }
    }

    /// The text, where this is one.
    pub fn as_str(&self) -> (r: Option<&str>)
        ensures
            match r {
                Some(s) => self@ == Json::Str(s@),
                None => !(self@ is Str),
            },
    {
        match self {
            Value::Str(s) => Some(s.as_str()),
            _ => None,
        }
    }

    /// The number, where this is one.
    pub fn as_f64(&self) -> (r: Option<Double>)
        ensures
            match r {
                Some(n) => self@ == Json::Num(n),
                None => !(self@ is Num),
            },
    {
        match self {
            Value::Num(n) => Some(*n),
            _ => None,
        }
    }

    /// The integer part of the number, where this is one.
    pub fn as_u64(&self) -> (r: Option<u64>)
        ensures
            match r {
                Some(n) => self@ is Num && n == crate::double::saturated(
                    self@->Num_0,
                    0,
                    u64::MAX as int,
                ),
                None => !(self@ is Num),
            },
    {
        match self.as_f64() {
            Some(n) => Some(n.to_range(0, u64::MAX as i128) as u64),
            None => None,
        }
    }

    /// The truth value, where this is one.
    pub fn as_bool(&self) -> (r: Option<bool>)
        ensures
            match r {
                Some(b) => self@ == Json::Bool(b),
                None => !(self@ is Bool),
            },
    {
        match self {
            Value::Bool(b) => Some(*b),
            _ => None,
        }
    }

    /// The elements, where this is an array.
    pub fn as_arr(&self) -> (r: Option<&Vec<Value>>)
        ensures
            match r {
                Some(a) => *self == Value::Arr(*a),
                None => !(self@ is Arr),
            },
    {
        match self {
            Value::Arr(a) => Some(a),
            _ => None,
        }
    }

    /// The text member `key`, or `dflt` where there is none.
    pub fn str_or<'a>(&'a self, key: &str, dflt: &'a str) -> (r: &'a str)
        ensures
            r@ == text_member(self@, key@, dflt@),
    {
        match self.get(key) {
            Some(v) => match v.as_str() {
                Some(s) => s,
                None => dflt,
            },
            None => dflt,
        }
    }

    /// The number member `key`, or `dflt` where there is none.
    pub fn num_or(&self, key: &str, dflt: Double) -> (r: Double)
        ensures
            r == num_member(self@, key@, dflt),
    {
        match self.get(key) {
            Some(v) => match v.as_f64() {
                Some(n) => n,
                None => dflt,
            },
            None => dflt,
        }
    }

    /// The truth member `key`, or `dflt` where there is none.
    pub fn bool_or(&self, key: &str, dflt: bool) -> (r: bool)
        ensures
            r == bool_member(self@, key@, dflt),
    {
        match self.get(key) {
            Some(v) => match v.as_bool() {
                Some(b) => b,
                None => dflt,
            },
            None => dflt,
        }
    }
}

// ---------------------------------------------------------------- characters and messages

/// What the debug formatting of `char` gives for `c`.
pub uninterp spec fn char_debug(c: char) -> Seq<char>;

/// What the debug formatting of `str` gives for `s`.
pub uninterp spec fn str_debug(s: Seq<char>) -> Seq<char>;

/// `<char as Debug>`: the character in single quotes, escaped where it needs to be. What is
/// escaped rests on the Unicode tables of the standard library, so the text has a name only.
#[verifier::external_body]
fn debug_char(c: char) -> (r: String)
    ensures
        r@ == char_debug(c),
{
    format!("{:?}", c)
}

/// `<str as Debug>`: the text in double quotes, escaped where it needs to be. What is escaped
/// rests on the Unicode tables of the standard library, so the text has a name only.
#[verifier::external_body]
pub(crate) fn debug_str(s: &str) -> (r: String)
    ensures
        r@ == str_debug(s@),
{
    format!("{:?}", s)
}

/// The character at `i`, where there is one.
pub open spec fn char_at(b: Seq<char>, i: int) -> Option<char> {
    if 0 <= i < b.len() {
        Some(b[i])
    } else {
        None
    }
}

/// The character at `i`, or that there is none, for a message.
pub open spec fn found(c: Option<char>) -> Seq<char> {
    match c {
        Some(c) => "Some("@ + char_debug(c) + ")"@,
        None => "None"@,
    }
}

/// The message that `c` was expected at `i`.
pub open spec fn expected(c: char, i: int) -> Seq<char> {
    "expected "@ + char_debug(c) + " at char "@ + numeral(i as nat)
}

/// Where the white space that starts at `i` ends.
pub open spec fn skip_space(b: Seq<char>, i: int) -> int
    decreases b.len() - i,
{
    if 0 <= i < b.len() && is_space(b[i]) {
        skip_space(b, i + 1)
    } else {
        i
    }
}

pub proof fn lemma_skip_space(b: Seq<char>, i: int)
    ensures
        i <= skip_space(b, i),
        0 <= i <= b.len() ==> skip_space(b, i) <= b.len(),
    decreases b.len() - i,
{
    if 0 <= i < b.len() && is_space(b[i]) {
        lemma_skip_space(b, i + 1);
    }
}

fn after_space(b: &[char], i: usize) -> (r: usize)
    requires
        i <= b@.len(),
    ensures
        r == skip_space(b@, i as int),
        i <= r <= b@.len(),
{
    let mut k: usize = i;
    while k < b.len() && space(b[k])
        invariant
            i <= k <= b@.len(),
            skip_space(b@, i as int) == skip_space(b@, k as int),
        decreases b@.len() - k,
    {
        k = k + 1;
    }
    k
}

fn peek(b: &[char], i: usize) -> (r: Option<char>)
    ensures
        r == char_at(b@, i as int),
        r is Some ==> i < usize::MAX,
{
    if i < b.len() {
        Some(b[i])
    } else {
        None
    }
}

fn found_text(c: Option<char>) -> (r: String)
    ensures
        r@ == found(c),
{
    match c {
        Some(c) => {
            let mut s = own("Some(");
            s.append(debug_char(c).as_str());
            s.append(")");
            s
        },
        None => own("None"),
    }
}

fn expected_text(c: char, i: usize) -> (r: String)
    ensures
        r@ == expected(c, i as int),
{
    let mut s = own("expected ");
    s.append(debug_char(c).as_str());
    s.append(" at char ");
    s.append(u64_numeral(i as u64).as_str());
    s
}

// ---------------------------------------------------------------- strings

/// The value of a hexadecimal digit.
pub open spec fn hex_value(c: char) -> Option<nat> {
    if '0' <= c <= '9' {
        Some((c as u32 - '0' as u32) as nat)
    } else if 'a' <= c <= 'f' {
        Some((c as u32 - 'a' as u32 + 10) as nat)
    } else if 'A' <= c <= 'F' {
        Some((c as u32 - 'A' as u32 + 10) as nat)
    } else {
        None
    }
}

/// The value of a text of hexadecimal digits.
pub open spec fn hex_digits(s: Seq<char>) -> Option<nat>
    decreases s.len(),
{
    if s.len() == 0 {
        Some(0)
    } else {
        match (hex_digits(s.drop_last()), hex_value(s.last())) {
            (Some(n), Some(d)) => Some(n * 16 + d),
            _ => None,
        }
    }
}

/// The value of a hexadecimal numeral, which may start with a plus sign.
pub open spec fn hex_number(s: Seq<char>) -> Option<nat> {
    let d = if s.len() > 0 && s[0] == '+' {
        s.skip(1)
    } else {
        s
    };
    if d.len() == 0 {
        None
    } else {
        hex_digits(d)
    }
}

/// Whether `n` is a character's code.
pub open spec fn is_code(n: int) -> bool {
    0 <= n < 0xd800 || 0xe000 <= n <= 0x10ffff
}

/// Where four characters from `i` on end, or the text does.
pub open spec fn four_from(b: Seq<char>, i: int) -> int {
    if i + 4 <= b.len() {
        i + 4
    } else {
        b.len() as int
    }
}

/// The character that the digits of a `\u` escape at `i` stand for, with those of a second
/// one where the first is a high surrogate, and where they end.
pub open spec fn unicode_escape(b: Seq<char>, i: int) -> Result<(char, int), Seq<char>> {
    let j = four_from(b, i);
    match hex_number(b.subrange(i, j)) {
        None => Err("bad \\u escape "@ + str_debug(b.subrange(i, j))),
        Some(n) => if 0xd800 <= n < 0xdc00 {
            if char_at(b, j) != Some('\\') {
                Err(expected('\\', j))
            } else if char_at(b, j + 1) != Some('u') {
                Err(expected('u', j + 1))
            } else {
                let k = four_from(b, j + 2);
                match hex_number(b.subrange(j + 2, k)) {
                    None => Err("bad low surrogate"@),
                    Some(l) => {
                        let c = 0x10000 + (n - 0xd800) * 0x400 + (l - 0xdc00);
                        if is_code(c) {
                            Ok((c as char, k))
                        } else {
                            Err("bad surrogate pair"@)
                        }
                    },
                }
            }
        } else if is_code(n as int) {
            Ok((n as char, j))
        } else {
            Err("bad code point"@)
        },
    }
}

/// What the letter after a backslash stands for.
pub open spec fn short_escape(c: char) -> Option<char> {
    if c == '"' || c == '\\' || c == '/' {
        Some(c)
    } else if c == 'b' {
        Some('\u{8}')
    } else if c == 'f' {
        Some('\u{c}')
    } else if c == 'n' {
        Some('\n')
    } else if c == 'r' {
        Some('\r')
    } else if c == 't' {
        Some('\t')
    } else {
        None
    }
}

/// The rest of a string from `i` on, after `s`, and where the string ends.
pub open spec fn string_rest(b: Seq<char>, i: int, s: Seq<char>) -> Result<
    (Seq<char>, int),
    Seq<char>,
>
    decreases b.len() - i,
{
    if i < 0 || i >= b.len() {
        Err("unterminated string"@)
    } else if b[i] == '"' {
        Ok((s, i + 1))
    } else if b[i] == '\\' {
        if i + 1 >= b.len() {
            Err("unterminated escape"@)
        } else if b[i + 1] == 'u' {
            match unicode_escape(b, i + 2) {
                Ok((c, j)) => string_rest(b, j, s.push(c)),
                Err(e) => Err(e),
            }
        } else {
            match short_escape(b[i + 1]) {
                Some(c) => string_rest(b, i + 2, s.push(c)),
                None => Err("bad escape \\"@ + seq![b[i + 1]]),
            }
        }
    } else {
        string_rest(b, i + 1, s.push(b[i]))
    }
}

/// The string at `i`, and where it ends.
pub open spec fn string_at(b: Seq<char>, i: int) -> Result<(Seq<char>, int), Seq<char>> {
    if char_at(b, i) != Some('"') {
        Err(expected('"', i))
    } else {
        string_rest(b, i + 1, seq![])
    }
}

proof fn lemma_string_rest(b: Seq<char>, i: int, s: Seq<char>)
    ensures
        string_rest(b, i, s) matches Ok((_, j)) ==> i < j <= b.len(),
    decreases b.len() - i,
{
    if 0 <= i < b.len() && b[i] != '"' {
        if b[i] == '\\' {
            if i + 1 < b.len() {
                if b[i + 1] == 'u' {
                    if let Ok((c, j)) = unicode_escape(b, i + 2) {
                        lemma_string_rest(b, j, s.push(c));
                    }
                } else if let Some(c) = short_escape(b[i + 1]) {
                    lemma_string_rest(b, i + 2, s.push(c));
                }
            }
        } else {
            lemma_string_rest(b, i + 1, s.push(b[i]));
        }
    }
}

pub proof fn lemma_string_at(b: Seq<char>, i: int)
    ensures
        string_at(b, i) matches Ok((_, j)) ==> i < j <= b.len(),
{
    lemma_string_rest(b, i + 1, seq![]);
}

pub(crate) fn hex_digit(c: char) -> (r: Option<u32>)
    ensures
        match r {
            Some(d) => hex_value(c) == Some(d as nat) && d < 16,
            None => hex_value(c) is None,
        },
{
    if '0' <= c && c <= '9' {
        Some(c as u32 - 48)
    } else if 'a' <= c && c <= 'f' {
        Some(c as u32 - 97 + 10)
    } else if 'A' <= c && c <= 'F' {
        Some(c as u32 - 65 + 10)
    } else {
        None
    }
}

proof fn lemma_hex_prefix(s: Seq<char>, i: int)
    requires
        0 <= i <= s.len(),
        hex_digits(s.take(i)) is None,
    ensures
        hex_digits(s) is None,
    decreases s.len() - i,
{
    if i == s.len() {
        assert(s.take(i) =~= s);
    } else {
        assert(s.take(i + 1).drop_last() =~= s.take(i));
        lemma_hex_prefix(s, i + 1);
    }
}

/// The value of a hexadecimal numeral of at most four characters.
fn hex(s: &[char]) -> (r: Option<u32>)
    requires
        s@.len() <= 4,
    ensures
        match r {
            Some(n) => hex_number(s@) == Some(n as nat) && n < 0x10000,
            None => hex_number(s@) is None,
        },
{
    let start: usize = if s.len() > 0 && s[0] == '+' {
        1
    } else {
        0
    };
    let d = part(s, start, s.len());
    assert(d@ =~= if s@.len() > 0 && s@[0] == '+' {
        s@.skip(1)
    } else {
        s@
    });
    if d.len() == 0 {
        return None;
    }
    let mut n: u32 = 0;
    let mut i: usize = 0;
    while i < d.len()
        invariant
            i <= d@.len() <= 4,
            hex_number(s@) == hex_digits(d@),
            hex_digits(d@.take(i as int)) == Some(n as nat),
            i == 0 ==> n == 0,
            i == 1 ==> n < 0x10,
            i == 2 ==> n < 0x100,
            i == 3 ==> n < 0x1000,
            i == 4 ==> n < 0x10000,
        decreases d@.len() - i,
    {
        proof {
            assert(d@.take(i + 1).drop_last() =~= d@.take(i as int));
        }
        match hex_digit(d[i]) {
            Some(x) => {
                n = n * 16 + x;
            },
            None => {
                proof {
                    assert(hex_digits(d@.take(i + 1)) is None);
                    lemma_hex_prefix(d@, i + 1);
                }
                return None;
            },
        }
        i = i + 1;
    }
    proof {
        assert(d@.take(d@.len() as int) =~= d@);
    }
    Some(n)
}

/// `char::from_u32`: the character of code `n`, where `n` is a Unicode scalar value, that is at
/// most 0x10ffff and no surrogate.
#[verifier::external_body]
fn char_of(n: u32) -> (r: Option<char>)
    ensures
        match r {
            Some(c) => is_code(n as int) && c == n as char,
            None => !is_code(n as int),
        },
{
    char::from_u32(n)
}

fn end_of_four(b: &[char], i: usize) -> (r: usize)
    requires
        i <= b@.len(),
    ensures
        r == four_from(b@, i as int),
        i <= r <= b@.len(),
        r - i <= 4,
{
    if b.len() - i >= 4 {
        i + 4
    } else {
        b.len()
    }
}

fn read_unicode(b: &[char], i: usize) -> (r: Result<(char, usize), String>)
    requires
        i <= b@.len(),
    ensures
        match r {
            Ok((c, j)) => unicode_escape(b@, i as int) == Ok::<(char, int), Seq<char>>(
                (c, j as int),
            ) && i <= j <= b@.len(),
            Err(e) => unicode_escape(b@, i as int) == Err::<(char, int), Seq<char>>(e@),
        },
{
    let j: usize = end_of_four(b, i);
    let h = part(b, i, j);
    let n: u32 = match hex(h) {
        Some(n) => n,
        None => {
            let mut e = own("bad \\u escape ");
            e.append(debug_str(string_of(h).as_str()).as_str());
            return Err(e);
        },
    };
    if 0xd800 <= n && n < 0xdc00 {
        if j >= b.len() || b[j] != '\\' {
            return Err(expected_text('\\', j));
        }
        if j + 1 >= b.len() || b[j + 1] != 'u' {
            return Err(expected_text('u', j + 1));
        }
        let k: usize = end_of_four(b, j + 2);
        let low: u32 = match hex(part(b, j + 2, k)) {
            Some(n) => n,
            None => {
                return Err(own("bad low surrogate"));
            },
        };
        match char_of(0x2400 + (n - 0xd800) * 0x400 + low) {
            Some(c) => Ok((c, k)),
            None => Err(own("bad surrogate pair")),
        }
    } else {
        match char_of(n) {
            Some(c) => Ok((c, j)),
            None => Err(own("bad code point")),
        }
    }
}

fn read_short(c: char) -> (r: Option<char>)
    ensures
        r == short_escape(c),
{
    if c == '"' || c == '\\' || c == '/' {
        Some(c)
    } else if c == 'b' {
        Some('\u{8}')
    } else if c == 'f' {
        Some('\u{c}')
    } else if c == 'n' {
        Some('\n')
    } else if c == 'r' {
        Some('\r')
    } else if c == 't' {
        Some('\t')
    } else {
        None
    }
}

/// The string at `i`, and where it ends.
fn string(b: &[char], i: usize) -> (r: Result<(String, usize), String>)
    requires
        i <= b@.len(),
    ensures
        match r {
            Ok((s, j)) => string_at(b@, i as int) == Ok::<(Seq<char>, int), Seq<char>>(
                (s@, j as int),
            ) && i < j <= b@.len(),
            Err(e) => string_at(b@, i as int) == Err::<(Seq<char>, int), Seq<char>>(e@),
        },
{
    if i >= b.len() || b[i] != '"' {
        return Err(expected_text('"', i));
    }
    let mut s = String::new();
    let mut k: usize = i + 1;
    assert(s@ =~= seq![]);
    while k < b.len()
        invariant
            i < k <= b@.len(),
            string_at(b@, i as int) == string_rest(b@, k as int, s@),
        decreases b@.len() - k,
    {
        let c: char = b[k];
        if c == '"' {
            return Ok((s, k + 1));
        }
        if c == '\\' {
            if k + 1 >= b.len() {
                return Err(own("unterminated escape"));
            }
            let e: char = b[k + 1];
            if e == 'u' {
                match read_unicode(b, k + 2) {
                    Ok((c, j)) => {
                        s.push(c);
                        k = j;
                    },
                    Err(e) => {
                        return Err(e);
                    },
                }
            } else {
                match read_short(e) {
                    Some(c) => {
                        s.push(c);
                        k = k + 2;
                    },
                    None => {
                        let mut m = own("bad escape \\");
                        m.push(e);
                        proof {
                            assert(m@ =~= "bad escape \\"@ + seq![e]);
                        }
                        return Err(m);
                    },
                }
            }
        } else {
            s.push(c);
            k = k + 1;
        }
    }
    Err(own("unterminated string"))
}

// ---------------------------------------------------------------- values

/// Whether `c` may stand in a number after its first character.
pub open spec fn is_number_char(c: char) -> bool {
    is_digit(c) || c == '.' || c == 'e' || c == 'E' || c == '+' || c == '-'
}

/// Where the characters of a number that start at `i` end.
pub open spec fn number_end(b: Seq<char>, i: int) -> int
    decreases b.len() - i,
{
    if 0 <= i < b.len() && is_number_char(b[i]) {
        number_end(b, i + 1)
    } else {
        i
    }
}

/// The number at `i`, and where it ends.
pub open spec fn number_at(b: Seq<char>, i: int) -> Result<(Json, int), Seq<char>> {
    let j = number_end(b, i);
    match parsed(b.subrange(i, j)) {
        Some(n) => Ok((Json::Num(n), j)),
        None => Err("bad number "@ + str_debug(b.subrange(i, j))),
    }
}

/// The word `w` at `i`, which stands for `v`, and where it ends. The first `k` characters
/// are there.
pub open spec fn word_at(b: Seq<char>, i: int, w: Seq<char>, k: int, v: Json) -> Result<
    (Json, int),
    Seq<char>,
>
    decreases w.len() - k,
{
    if k >= w.len() {
        Ok((v, i + k))
    } else if char_at(b, i + k) == Some(w[k]) {
        word_at(b, i, w, k + 1, v)
    } else {
        Err(expected(w[k], i + k))
    }
}

/// The value at `i`, and where it ends.
pub open spec fn value_at(b: Seq<char>, i: int) -> Result<(Json, int), Seq<char>>
    decreases b.len() - i, 0int,
{
    let c = char_at(b, i);
    if c == Some('{') {
        let j = skip_space(b, i + 1);
        if char_at(b, j) == Some('}') {
            Ok((Json::Obj(seq![]), j + 1))
        } else {
            members(b, i + 1, seq![])
        }
    } else if c == Some('[') {
        let j = skip_space(b, i + 1);
        if char_at(b, j) == Some(']') {
            Ok((Json::Arr(seq![]), j + 1))
        } else {
            elements(b, i + 1, seq![])
        }
    } else if c == Some('"') {
        match string_at(b, i) {
            Ok((s, j)) => Ok((Json::Str(s), j)),
            Err(e) => Err(e),
        }
    } else if c == Some('t') {
        word_at(b, i, "true"@, 0, Json::Bool(true))
    } else if c == Some('f') {
        word_at(b, i, "false"@, 0, Json::Bool(false))
    } else if c == Some('n') {
        word_at(b, i, "null"@, 0, Json::Null)
    } else if c matches Some(d) && (d == '-' || is_digit(d)) {
        number_at(b, i)
    } else {
        Err("unexpected "@ + found(c) + " at char "@ + numeral(i as nat))
    }
}

/// The entries of an object from `i` on, after `m`, and where the object ends. A value ends
/// after it starts and within the text, so the comparison of its two ends always holds.
pub open spec fn members(b: Seq<char>, i: int, m: Seq<(Seq<char>, Json)>) -> Result<
    (Json, int),
    Seq<char>,
>
    decreases b.len() - i, 1int,
{
    proof {
        lemma_skip_space(b, i);
        lemma_string_at(b, skip_space(b, i));
    }
    match string_at(b, skip_space(b, i)) {
        Err(e) => Err(e),
        Ok((k, after_key)) => {
            let colon = skip_space(b, after_key);
            proof {
                lemma_skip_space(b, after_key);
                lemma_skip_space(b, colon + 1);
            }
            if char_at(b, colon) != Some(':') {
                Err(expected(':', colon))
            } else {
                let start = skip_space(b, colon + 1);
                match value_at(b, start) {
                    Err(e) => Err(e),
                    Ok((v, end)) => {
                        let next = skip_space(b, end);
                        let entries = put(m, k, v);
                        proof {
                            lemma_skip_space(b, end);
                        }
                        if char_at(b, next) == Some(',') && start < end <= b.len() {
                            members(b, next + 1, entries)
                        } else if char_at(b, next) == Some('}') {
                            Ok((Json::Obj(entries), next + 1))
                        } else {
                            Err("expected , or } got "@ + found(char_at(b, next)))
                        }
                    },
                }
            }
        },
    }
}

/// The elements of an array from `i` on, after `a`, and where the array ends. A value ends
/// after it starts and within the text, so the comparison of its two ends always holds.
pub open spec fn elements(b: Seq<char>, i: int, a: Seq<Json>) -> Result<(Json, int), Seq<char>>
    decreases b.len() - i, 1int,
{
    let start = skip_space(b, i);
    proof {
        lemma_skip_space(b, i);
    }
    match value_at(b, start) {
        Err(e) => Err(e),
        Ok((v, end)) => {
            let next = skip_space(b, end);
            proof {
                lemma_skip_space(b, end);
            }
            if char_at(b, next) == Some(',') && start < end <= b.len() {
                elements(b, next + 1, a.push(v))
            } else if char_at(b, next) == Some(']') {
                Ok((Json::Arr(a.push(v)), next + 1))
            } else {
                Err("expected , or ] got "@ + found(char_at(b, next)))
            }
        },
    }
}

/// The value that a text gives, or what is wrong with the text.
pub open spec fn parsed_json(b: Seq<char>) -> Result<Json, Seq<char>> {
    match value_at(b, skip_space(b, 0)) {
        Err(e) => Err(e),
        Ok((v, j)) => {
            let end = skip_space(b, j);
            if end < b.len() {
                Err("trailing input at char "@ + numeral(end as nat))
            } else {
                Ok(v)
            }
        },
    }
}

/// Whether a value or an error message is the one that `s` gives.
pub open spec fn is_result(r: Result<(Value, usize), String>, s: Result<(Json, int), Seq<char>>) -> bool {
    match r {
        Ok((v, j)) => s == Ok::<(Json, int), Seq<char>>((v@, j as int)),
        Err(e) => s == Err::<(Json, int), Seq<char>>(e@),
    }
}

fn literal(b: &[char], i: usize, w: &str, v: Value) -> (r: Result<(Value, usize), String>)
    requires
        i <= b@.len(),
        w@.len() > 0,
    ensures
        is_result(r, word_at(b@, i as int, w@, 0, v@)),
        r matches Ok((_, j)) ==> i < j <= b@.len(),
{
    let word = chars_of(w);
    let left: usize = b.len() - i;
    let mut k: usize = 0;
    while k < word.len()
        invariant
            word@ == w@,
            left == b@.len() - i,
            i + left <= usize::MAX,
            k <= w@.len(),
            i + k <= b@.len(),
            word_at(b@, i as int, w@, 0, v@) == word_at(b@, i as int, w@, k as int, v@),
        decreases w@.len() - k,
    {
        if k < left && b[i + k] == word[k] {
            k = k + 1;
        } else {
            return Err(expected_text(word[k], i + k));
        }
    }
    Ok((v, i + k))
}

proof fn lemma_number_end(b: Seq<char>, i: int)
    requires
        0 <= i <= b.len(),
    ensures
        i <= number_end(b, i) <= b.len(),
    decreases b.len() - i,
{
    if i < b.len() && is_number_char(b[i]) {
        lemma_number_end(b, i + 1);
    }
}

fn number_value(b: &[char], i: usize) -> (r: Result<(Value, usize), String>)
    requires
        i < b@.len(),
        is_number_char(b@[i as int]),
    ensures
        is_result(r, number_at(b@, i as int)),
        r matches Ok((_, j)) ==> i < j <= b@.len(),
{
    let mut j: usize = i;
    while j < b.len() && (decimal(b[j]) || b[j] == '.' || b[j] == 'e' || b[j] == 'E' || b[j]
        == '+' || b[j] == '-')
        invariant
            i <= j <= b@.len(),
            number_end(b@, i as int) == number_end(b@, j as int),
        decreases b@.len() - j,
    {
        j = j + 1;
    }
    proof {
        lemma_number_end(b@, i + 1);
    }
    let t = part(b, i, j);
    match parse_double(t) {
        Some(n) => Ok((Value::Num(n), j)),
        None => {
            let mut e = own("bad number ");
            e.append(debug_str(string_of(t).as_str()).as_str());
            Err(e)
        },
    }
}

/// Binds `k` to `v`, in the place where the order of the keys puts it.
fn insert(m: &mut Vec<(String, Value)>, k: String, v: Value)
    ensures
        json(Value::Obj(*final(m))) == Json::Obj(
            put(json(Value::Obj(*old(m)))->Obj_0, k@, v@),
        ),
{
    let ghost e = json(Value::Obj(*m))->Obj_0;
    let ghost before_all = m@;
    let mut i: usize = 0;
    assert(e.skip(0) =~= e);
    assert(e.take(0) + put(e.skip(0), k@, v@) =~= put(e, k@, v@));
    while i < m.len()
        invariant
            i <= m@.len(),
            m@ == before_all,
            e == json(Value::Obj(*m))->Obj_0,
            e == json(Value::Obj(*old(m)))->Obj_0,
            put(e, k@, v@) == e.take(i as int) + put(e.skip(i as int), k@, v@),
        decreases m@.len() - i,
    {
        let ghost rest = e.skip(i as int);
        proof {
            assert(rest.skip(1) =~= e.skip(i + 1));
            assert(rest[0] == (m@[i as int].0@, json(m@[i as int].1)));
        }
        if eq_str(m[i].0.as_str(), k.as_str()) {
            m.set(i, (k, v));
            proof {
                assert(json(Value::Obj(*m))->Obj_0 =~= e.take(i as int) + (seq![(k@, v@)]
                    + rest.skip(1)));
            }
            return ;
        }
        if str_before(k.as_str(), m[i].0.as_str()) {
            m.insert(i, (k, v));
            proof {
                assert(json(Value::Obj(*m))->Obj_0 =~= e.take(i as int) + (seq![(k@, v@)] + rest));
            }
            return ;
        }
        proof {
            assert(e.take(i as int) + (seq![rest[0]] + put(rest.skip(1), k@, v@)) =~= e.take(i + 1)
                + put(e.skip(i + 1), k@, v@));
        }
        i = i + 1;
    }
    m.push((k, v));
    proof {
        assert(json(Value::Obj(*m))->Obj_0 =~= e.take(i as int) + seq![(k@, v@)]);
    }
}

/// The value at `i`, and where it ends.
fn value(b: &[char], i: usize) -> (r: Result<(Value, usize), String>)
    requires
        i <= b@.len(),
    ensures
        is_result(r, value_at(b@, i as int)),
        r matches Ok((_, j)) ==> i < j <= b@.len(),
    decreases b@.len() - i, 0int,
{
    match peek(b, i) {
        Some('{') => {
            let j: usize = after_space(b, i + 1);
            if j < b.len() && b[j] == '}' {
                let m: Vec<(String, Value)> = Vec::new();
                proof {
                    assert(json(Value::Obj(m))->Obj_0 =~= seq![]);
                }
                return Ok((Value::Obj(m), j + 1));
            }
            object_rest(b, i + 1)
        },
        Some('[') => {
            let j: usize = after_space(b, i + 1);
            if j < b.len() && b[j] == ']' {
                let a: Vec<Value> = Vec::new();
                proof {
                    assert(json(Value::Arr(a))->Arr_0 =~= seq![]);
                }
                return Ok((Value::Arr(a), j + 1));
            }
            array_rest(b, i + 1)
        },
        Some('"') => match string(b, i) {
            Ok((s, j)) => Ok((Value::Str(s), j)),
            Err(e) => Err(e),
        },
        Some('t') => {
            proof {
                reveal_strlit("true");
            }
            literal(b, i, "true", Value::Bool(true))
        },
        Some('f') => {
            proof {
                reveal_strlit("false");
            }
            literal(b, i, "false", Value::Bool(false))
        },
        Some('n') => {
            proof {
                reveal_strlit("null");
            }
            literal(b, i, "null", Value::Null)
        },
        other => {
            if let Some(c) = other {
                if c == '-' || decimal(c) {
                    return number_value(b, i);
                }
            }
            let mut e = own("unexpected ");
            e.append(found_text(other).as_str());
            e.append(" at char ");
            e.append(u64_numeral(i as u64).as_str());
            Err(e)
        },
    }
}

fn object_rest(b: &[char], i: usize) -> (r: Result<(Value, usize), String>)
    requires
        i <= b@.len(),
    ensures
        is_result(r, members(b@, i as int, seq![])),
        r matches Ok((_, j)) ==> i < j <= b@.len(),
    decreases b@.len() - i, 1int,
{
    let mut m: Vec<(String, Value)> = Vec::new();
    let mut k: usize = i;
    proof {
        assert(json(Value::Obj(m))->Obj_0 =~= seq![]);
    }
    loop
        invariant
            i <= k <= b@.len(),
            members(b@, i as int, seq![]) == members(
                b@,
                k as int,
                json(Value::Obj(m))->Obj_0,
            ),
        decreases b@.len() - k,
    {
        let start: usize = after_space(b, k);
        let (key, after_key) = match string(b, start) {
            Ok(p) => p,
            Err(e) => {
                return Err(e);
            },
        };
        let colon: usize = after_space(b, after_key);
        if colon >= b.len() || b[colon] != ':' {
            return Err(expected_text(':', colon));
        }
        let first: usize = after_space(b, colon + 1);
        let (v, end) = match value(b, first) {
            Ok(p) => p,
            Err(e) => {
                return Err(e);
            },
        };
        insert(&mut m, key, v);
        let next: usize = after_space(b, end);
        match peek(b, next) {
            Some(',') => {
                k = next + 1;
            },
            Some('}') => {
                return Ok((Value::Obj(m), next + 1));
            },
            other => {
                let mut e = own("expected , or } got ");
                e.append(found_text(other).as_str());
                return Err(e);
            },
        }
    }
}

fn array_rest(b: &[char], i: usize) -> (r: Result<(Value, usize), String>)
    requires
        i <= b@.len(),
    ensures
        is_result(r, elements(b@, i as int, seq![])),
        r matches Ok((_, j)) ==> i < j <= b@.len(),
    decreases b@.len() - i, 1int,
{
    let mut a: Vec<Value> = Vec::new();
    let mut k: usize = i;
    proof {
        assert(json(Value::Arr(a))->Arr_0 =~= seq![]);
    }
    loop
        invariant
            i <= k <= b@.len(),
            elements(b@, i as int, seq![]) == elements(
                b@,
                k as int,
                json(Value::Arr(a))->Arr_0,
            ),
        decreases b@.len() - k,
    {
        let start: usize = after_space(b, k);
        let (v, end) = match value(b, start) {
            Ok(p) => p,
            Err(e) => {
                return Err(e);
            },
        };
        let ghost held = json(Value::Arr(a))->Arr_0;
        let ghost j = v@;
        a.push(v);
        proof {
            assert(json(Value::Arr(a))->Arr_0 =~= held.push(j));
        }
        let next: usize = after_space(b, end);
        match peek(b, next) {
            Some(',') => {
                k = next + 1;
            },
            Some(']') => {
                return Ok((Value::Arr(a), next + 1));
            },
            other => {
                let mut e = own("expected , or ] got ");
                e.append(found_text(other).as_str());
                return Err(e);
            },
        }
    }
}

/// The value that a text gives, or what is wrong with the text.
pub fn parse(src: &str) -> (r: Result<Value, String>)
    ensures
        match r {
            Ok(v) => parsed_json(src@) == Ok::<Json, Seq<char>>(v@),
            Err(e) => parsed_json(src@) == Err::<Json, Seq<char>>(e@),
        },
{
    let v = chars_of(src);
    let b = v.as_slice();
    let start: usize = after_space(b, 0);
    match value(b, start) {
        Err(e) => Err(e),
        Ok((v, j)) => {
            let end: usize = after_space(b, j);
            if end < b.len() {
                let mut e = own("trailing input at char ");
                e.append(u64_numeral(end as u64).as_str());
                Err(e)
            } else {
                Ok(v)
            }
        },
    }
}

/// A value ends after it starts, and within the text.
pub proof fn lemma_value_end(b: Seq<char>, i: int)
    requires
        0 <= i <= b.len(),
    ensures
        value_at(b, i) matches Ok((_, j)) ==> i < j <= b.len(),
    decreases b.len() - i, 0int,
{
    let c = char_at(b, i);
    if c == Some('{') {
        lemma_skip_space(b, i + 1);
        lemma_members_end(b, i + 1, seq![]);
    } else if c == Some('[') {
        lemma_skip_space(b, i + 1);
        lemma_elements_end(b, i + 1, seq![]);
    } else if c == Some('"') {
        lemma_string_at(b, i);
    } else if c == Some('t') {
        reveal_strlit("true");
        lemma_word_end(b, i, "true"@, 0, Json::Bool(true));
    } else if c == Some('f') {
        reveal_strlit("false");
        lemma_word_end(b, i, "false"@, 0, Json::Bool(false));
    } else if c == Some('n') {
        reveal_strlit("null");
        lemma_word_end(b, i, "null"@, 0, Json::Null);
    } else if c is Some {
        lemma_number_end(b, i + 1);
    }
}

proof fn lemma_word_end(b: Seq<char>, i: int, w: Seq<char>, k: int, v: Json)
    requires
        0 <= i,
        0 <= k <= w.len(),
        w.len() > 0,
        i + k <= b.len(),
    ensures
        word_at(b, i, w, k, v) matches Ok((_, j)) ==> i < j <= b.len(),
    decreases w.len() - k,
{
    if k < w.len() && char_at(b, i + k) == Some(w[k]) {
        lemma_word_end(b, i, w, k + 1, v);
    }
}

proof fn lemma_members_end(b: Seq<char>, i: int, m: Seq<(Seq<char>, Json)>)
    requires
        0 <= i <= b.len(),
    ensures
        members(b, i, m) matches Ok((_, j)) ==> i < j <= b.len(),
    decreases b.len() - i, 1int,
{
    lemma_skip_space(b, i);
    lemma_string_at(b, skip_space(b, i));
    if let Ok((k, after_key)) = string_at(b, skip_space(b, i)) {
        let colon = skip_space(b, after_key);
        lemma_skip_space(b, after_key);
        if char_at(b, colon) == Some(':') {
            let start = skip_space(b, colon + 1);
            lemma_skip_space(b, colon + 1);
            lemma_value_end(b, start);
            if let Ok((v, end)) = value_at(b, start) {
                let next = skip_space(b, end);
                lemma_skip_space(b, end);
                if char_at(b, next) == Some(',') {
                    lemma_members_end(b, next + 1, put(m, k, v));
                }
            }
        }
    }
}

proof fn lemma_elements_end(b: Seq<char>, i: int, a: Seq<Json>)
    requires
        0 <= i <= b.len(),
    ensures
        elements(b, i, a) matches Ok((_, j)) ==> i < j <= b.len(),
    decreases b.len() - i, 1int,
{
    let start = skip_space(b, i);
    lemma_skip_space(b, i);
    lemma_value_end(b, start);
    if let Ok((v, end)) = value_at(b, start) {
        let next = skip_space(b, end);
        lemma_skip_space(b, end);
        if char_at(b, next) == Some(',') {
            lemma_elements_end(b, next + 1, a.push(v));
        }
    }
}

// ---------------------------------------------------------------- writing

/// The hexadecimal digit of value `d`.
pub open spec fn hex_char(d: nat) -> char {
    if d < 10 {
        ('0' as u32 + d) as char
    } else {
        ('a' as u32 + (d - 10)) as char
    }
}

/// How a character stands in a string.
pub open spec fn escape(c: char) -> Seq<char> {
    if c == '"' {
        seq!['\\', '"']
    } else if c == '\\' {
        seq!['\\', '\\']
    } else if c == '\n' {
        seq!['\\', 'n']
    } else if c == '\r' {
        seq!['\\', 'r']
    } else if c == '\t' {
        seq!['\\', 't']
    } else if (c as u32) < 0x20 {
        seq!['\\', 'u', '0', '0', hex_char(c as nat / 16), hex_char(c as nat % 16)]
    } else {
        seq![c]
    }
}

/// How the characters of a text stand in a string.
pub open spec fn escaped(s: Seq<char>) -> Seq<char>
    decreases s.len(),
{
    if s.len() == 0 {
        seq![]
    } else {
        escaped(s.drop_last()) + escape(s.last())
    }
}

/// A text as a JSON string.
pub open spec fn quoted(s: Seq<char>) -> Seq<char> {
    seq!['"'] + escaped(s) + seq!['"']
}

/// A key and the colon after it.
pub open spec fn key_text(k: Seq<char>) -> Seq<char> {
    quoted(k) + seq![':']
}

/// Whether `n` is an integer that is written as one.
pub open spec fn plain_integer(n: Double) -> bool {
    is_whole(n) && less(with_sign(false, n.magnitude()), whole(1_000_000_000_000_000))
}

/// A number as JSON: integers without a point, other numbers rounded to three places.
pub open spec fn num_text(n: Double) -> Seq<char> {
    if !n.finite() {
        "null"@
    } else if plain_integer(n) {
        int_text(saturated(n, i64::MIN as int, i64::MAX as int))
    } else {
        display(quotient(nearest(product(n, whole(1000))), whole(1000)))
    }
}

/// A number as JSON, or `null` where there is none.
pub open spec fn opt_num_text(n: Option<Double>) -> Seq<char> {
    match n {
        Some(n) => num_text(n),
        None => "null"@,
    }
}

/// A truth value as JSON.
pub open spec fn bool_text(b: bool) -> Seq<char> {
    if b {
        "true"@
    } else {
        "false"@
    }
}

/// The texts with commas between them.
pub open spec fn listed(ts: Seq<Seq<char>>) -> Seq<char>
    decreases ts.len(),
{
    if ts.len() == 0 {
        seq![]
    } else if ts.len() == 1 {
        ts[0]
    } else {
        listed(ts.drop_last()) + seq![','] + ts.last()
    }
}

/// The array of the given elements.
pub open spec fn array_text(ts: Seq<Seq<char>>) -> Seq<char> {
    seq!['['] + listed(ts) + seq![']']
}

/// The object of the given members.
pub open spec fn object_text(ts: Seq<Seq<char>>) -> Seq<char> {
    seq!['{'] + listed(ts) + seq!['}']
}

/// The member of an object with key `k` and the text `t` of its value.
pub open spec fn entry(k: Seq<char>, t: Seq<char>) -> Seq<char> {
    key_text(k) + t
}

pub proof fn lemma_listed_push(ts: Seq<Seq<char>>, t: Seq<char>)
    ensures
        listed(ts.push(t)) == if ts.len() == 0 {
            t
        } else {
            listed(ts) + seq![','] + t
        },
{
    assert(ts.push(t).drop_last() =~= ts);
}

/// One more member, after those that are there.
pub proof fn lemma_entry(b: Seq<char>, ts: Seq<Seq<char>>, k: Seq<char>, t: Seq<char>)
    requires
        ts.len() > 0,
    ensures
        b + listed(ts) + seq![','] + key_text(k) + t == b + listed(ts.push(entry(k, t))),
{
    lemma_listed_push(ts, entry(k, t));
    assert(b + listed(ts) + seq![','] + key_text(k) + t =~= b + listed(ts.push(entry(k, t))));
}

/// Builder for compact JSON output.
pub struct Writer {
    pub buf: String,
}

pub(crate) fn hex_digit_char(d: u32) -> (r: char)
    requires
        d < 16,
    ensures
        r == hex_char(d as nat),
{
    if d < 10 {
        ((48 + d) as u8) as char
    } else {
        ((97 + (d - 10)) as u8) as char
    }
}

fn push_escape(s: &mut String, c: char)
    ensures
        final(s)@ == old(s)@ + escape(c),
{
    let ghost b = s@;
    if c == '"' {
        s.push('\\');
        s.push('"');
    } else if c == '\\' {
        s.push('\\');
        s.push('\\');
    } else if c == '\n' {
        s.push('\\');
        s.push('n');
    } else if c == '\r' {
        s.push('\\');
        s.push('r');
    } else if c == '\t' {
        s.push('\\');
        s.push('t');
    } else if (c as u32) < 0x20 {
        s.push('\\');
        s.push('u');
        s.push('0');
        s.push('0');
        s.push(hex_digit_char(c as u32 / 16));
        s.push(hex_digit_char(c as u32 % 16));
    } else {
        s.push(c);
    }
    assert(s@ =~= b + escape(c));
}

impl Writer {
    /// A writer that has written nothing.
    pub fn new() -> (r: Self)
        ensures
            r.buf@ == Seq::<char>::empty(),
    {
        Writer { buf: String::new() }
    }

    /// Writes `s` as it is.
    pub fn raw(&mut self, s: &str)
        ensures
            final(self).buf@ == old(self).buf@ + s@,
    {
        self.buf.append(s);
    }

    /// Writes a key and the colon after it.
    pub fn key(&mut self, k: &str)
        ensures
            final(self).buf@ == old(self).buf@ + key_text(k@),
    {
        self.str(k);
        self.buf.push(':');
        assert(self.buf@ =~= old(self).buf@ + key_text(k@));
    }

    /// Writes a string.
    pub fn str(&mut self, s: &str)
        ensures
            final(self).buf@ == old(self).buf@ + quoted(s@),
    {
        let v = chars_of(s);
        let ghost b = self.buf@;
        self.buf.push('"');
        let mut i: usize = 0;
        assert(s@.take(0) =~= seq![]);
        assert(self.buf@ =~= b + seq!['"'] + escaped(s@.take(0)));
        while i < v.len()
            invariant
                i <= v@.len(),
                v@ == s@,
                self.buf@ == b + seq!['"'] + escaped(s@.take(i as int)),
            decreases v@.len() - i,
        {
            push_escape(&mut self.buf, v[i]);
            proof {
                assert(s@.take(i + 1).drop_last() =~= s@.take(i as int));
                assert(self.buf@ =~= b + seq!['"'] + escaped(s@.take(i + 1)));
            }
            i = i + 1;
        }
        self.buf.push('"');
        proof {
            assert(s@.take(s@.len() as int) =~= s@);
            assert(self.buf@ =~= b + quoted(s@));
        }
    }

    /// Writes a number: integers without a point, other numbers rounded to three places.
    pub fn num(&mut self, n: Double)
        ensures
            final(self).buf@ == old(self).buf@ + num_text(n),
    {
        if !n.is_finite() {
            self.buf.append("null");
        } else if n.whole() && assemble(false, n.magnitude_bits()).lt(
            Double::from_u64(1_000_000_000_000_000),
        ) {
            let i: i64 = n.to_range(i64::MIN as i128, i64::MAX as i128) as i64;
            self.buf.append(i64_numeral(i).as_str());
        } else {
            let k = Double::from_u64(1000);
            self.buf.append(display_text(n.times(k).round().over(k)).as_str());
        }
    }

    /// Writes a number, or `null` where there is none.
    pub fn opt_num(&mut self, n: Option<Double>)
        ensures
            final(self).buf@ == old(self).buf@ + opt_num_text(n),
    {
        match n {
            Some(v) => self.num(v),
            None => self.buf.append("null"),
        }
    }

    /// Writes the comma that separates an element from those before it.
    pub fn comma(&mut self, first: bool)
        ensures
            final(self).buf@ == old(self).buf@ + if first {
                seq![]
            } else {
                seq![',']
            },
    {
        if !first {
            self.buf.push(',');
        }
        assert(self.buf@ =~= old(self).buf@ + if first {
            seq![]
        } else {
            seq![',']
        });
    }

    /// Writes one more member of an object: a string.
    pub(crate) fn str_entry(
        &mut self,
        Ghost(b): Ghost<Seq<char>>,
        Ghost(ts): Ghost<Seq<Seq<char>>>,
        first: bool,
        k: &str,
        s: &str,
    )
        requires
            old(self).buf@ == b + listed(ts),
            first == (ts.len() == 0),
        ensures
            final(self).buf@ == b + listed(ts.push(entry(k@, quoted(s@)))),
    {
        self.comma(first);
        self.key(k);
        self.str(s);
        proof {
            lemma_listed_push(ts, entry(k@, quoted(s@)));
            assert(self.buf@ =~= b + listed(ts.push(entry(k@, quoted(s@)))));
        }
    }

    /// Writes one more member of an object: a number, or `null`.
    pub(crate) fn opt_entry(
        &mut self,
        Ghost(b): Ghost<Seq<char>>,
        Ghost(ts): Ghost<Seq<Seq<char>>>,
        first: bool,
        k: &str,
        n: Option<Double>,
    )
        requires
            old(self).buf@ == b + listed(ts),
            first == (ts.len() == 0),
        ensures
            final(self).buf@ == b + listed(ts.push(entry(k@, opt_num_text(n)))),
    {
        self.comma(first);
        self.key(k);
        self.opt_num(n);
        proof {
            lemma_listed_push(ts, entry(k@, opt_num_text(n)));
            assert(self.buf@ =~= b + listed(ts.push(entry(k@, opt_num_text(n)))));
        }
    }

    /// Writes one more member of an object: a number.
    pub(crate) fn num_entry(
        &mut self,
        Ghost(b): Ghost<Seq<char>>,
        Ghost(ts): Ghost<Seq<Seq<char>>>,
        first: bool,
        k: &str,
        n: Double,
    )
        requires
            old(self).buf@ == b + listed(ts),
            first == (ts.len() == 0),
        ensures
            final(self).buf@ == b + listed(ts.push(entry(k@, num_text(n)))),
    {
        self.opt_entry(Ghost(b), Ghost(ts), first, k, Some(n));
    }

    /// Writes a truth value.
    pub fn bool(&mut self, b: bool)
        ensures
            final(self).buf@ == old(self).buf@ + bool_text(b),
    {
        if b {
            self.buf.append("true");
        } else {
            self.buf.append("false");
        }
    }
}

// ---------------------------------------------------------------- what is written reads back

proof fn lemma_hex_push(s: Seq<char>, c: char)
    ensures
        hex_digits(s.push(c)) == match (hex_digits(s), hex_value(c)) {
            (Some(n), Some(d)) => Some(n * 16 + d),
            _ => None,
        },
{
    assert(s.push(c).drop_last() =~= s);
}

proof fn lemma_control_hex(c: char)
    requires
        (c as u32) < 0x20,
    ensures
        hex_number(seq!['0', '0', hex_char(c as nat / 16), hex_char(c as nat % 16)]) == Some(
            c as nat,
        ),
{
    let n = c as nat;
    let e = Seq::<char>::empty();
    let x = hex_char(n / 16);
    let y = hex_char(n % 16);
    assert(hex_value(x) == Some(n / 16));
    assert(hex_value(y) == Some(n % 16));
    lemma_hex_push(e, '0');
    lemma_hex_push(e.push('0'), '0');
    lemma_hex_push(e.push('0').push('0'), x);
    lemma_hex_push(e.push('0').push('0').push(x), y);
    assert(seq!['0', '0', x, y] =~= e.push('0').push('0').push(x).push(y));
}

proof fn lemma_escape_read(b: Seq<char>, p: int, c: char, t: Seq<char>)
    requires
        0 <= p,
        p + escape(c).len() <= b.len(),
        b.subrange(p, p + escape(c).len()) == escape(c),
    ensures
        string_rest(b, p, t) == string_rest(b, p + escape(c).len(), t.push(c)),
{
    let e = escape(c);
    let w = b.subrange(p, p + e.len());
    assert(b[p] == w[0]);
    if e.len() > 1 {
        assert(b[p + 1] == w[1]);
    }
    if e.len() == 6 {
        let h = b.subrange(p + 2, p + 6);
        assert(h =~= w.skip(2));
        assert(e.skip(2) =~= seq!['0', '0', hex_char(c as nat / 16), hex_char(c as nat % 16)]);
        lemma_control_hex(c);
        assert(four_from(b, p + 2) == p + 6);
        assert(unicode_escape(b, p + 2) == Ok::<(char, int), Seq<char>>((c, p + 6)));
    }
}

/// Whether `t` stands in `b` at `i`.
pub open spec fn stands_at(b: Seq<char>, i: int, t: Seq<char>) -> bool {
    0 <= i && i + t.len() <= b.len() && b.subrange(i, i + t.len()) == t
}

proof fn lemma_escaped_read(b: Seq<char>, p: int, s: Seq<char>)
    requires
        stands_at(b, p, escaped(s)),
    ensures
        string_rest(b, p, seq![]) == string_rest(b, p + escaped(s).len(), s),
    decreases s.len(),
{
    if s.len() == 0 {
        assert(s =~= seq![]);
    } else {
        let f = s.drop_last();
        let n = p + escaped(f).len();
        let e = escape(s.last());
        let w = b.subrange(p, p + escaped(s).len());
        assert(b.subrange(p, n) =~= w.take(escaped(f).len() as int));
        assert(escaped(s).take(escaped(f).len() as int) =~= escaped(f));
        lemma_escaped_read(b, p, f);
        assert(b.subrange(n, n + e.len()) =~= w.skip(escaped(f).len() as int));
        assert(escaped(s).skip(escaped(f).len() as int) =~= e);
        lemma_escape_read(b, n, s.last(), f);
        assert(f.push(s.last()) =~= s);
    }
}

/// A string that stands in a text reads as the text it was written from.
pub proof fn lemma_string_stands(b: Seq<char>, i: int, s: Seq<char>)
    requires
        stands_at(b, i, quoted(s)),
    ensures
        string_at(b, i) == Ok::<(Seq<char>, int), Seq<char>>((s, i + quoted(s).len())),
        b[i] == '"',
{
    let t = quoted(s);
    let w = b.subrange(i, i + t.len());
    let n = escaped(s).len() as int;
    assert(b[i] == w[0]);
    assert(b[i + 1 + n] == w[1 + n]);
    assert(b.subrange(i + 1, i + 1 + n) =~= w.subrange(1, 1 + n));
    assert(t.subrange(1, 1 + n) =~= escaped(s));
    lemma_escaped_read(b, i + 1, s);
}

/// A string that was written reads back as the text it was written from.
pub proof fn lemma_string_round_trip(s: Seq<char>)
    ensures
        parsed_json(quoted(s)) == Ok::<Json, Seq<char>>(Json::Str(s)),
{
    let b = quoted(s);
    assert(b.subrange(0, b.len() as int) =~= b);
    lemma_string_stands(b, 0, s);
    assert(skip_space(b, 0) == 0);
    assert(skip_space(b, b.len() as int) == b.len());
}

proof fn lemma_all_number_chars(b: Seq<char>, i: int)
    requires
        0 <= i <= b.len(),
        forall|k: int| i <= k < b.len() ==> is_number_char(#[trigger] b[k]),
    ensures
        number_end(b, i) == b.len(),
    decreases b.len() - i,
{
    if i < b.len() {
        lemma_all_number_chars(b, i + 1);
    }
}

proof fn lemma_all_digits_end(b: Seq<char>, i: int)
    requires
        0 <= i <= b.len(),
        all_digits(b),
    ensures
        digits_end(b, i) == b.len(),
    decreases b.len() - i,
{
    if i < b.len() {
        lemma_all_digits_end(b, i + 1);
    }
}

/// What an integer that is written as one reads as: itself, but a zero has no sign.
pub open spec fn unsigned_zero(n: Double) -> Double {
    if n.magnitude() == 0 {
        whole(0)
    } else {
        n
    }
}

/// The text of an integer that is written as one gives the integer.
pub proof fn lemma_integer_text(n: Double)
    requires
        plain_integer(n),
    ensures
        parsed(num_text(n)) == Some(unsigned_zero(n)),
        num_text(n).len() > 0,
        is_digit(num_text(n)[0]) || num_text(n)[0] == '-',
        forall|i: int| 0 <= i < num_text(n).len() ==> is_number_char(#[trigger] num_text(n)[i]),
{
    let limit: nat = 1_000_000_000_000_000;
    let a = with_sign(false, n.magnitude());
    lemma_whole_exact(limit);
    lemma_order(a, whole(limit as int));
    lemma_pow2_pos(1074);
    let u = one() as int;
    let k = (n.size() / one()) as int;
    lemma_fundamental_div_mod(n.size() as int, u);
    assert(n.size() == k * u) by {
        lemma_mul_is_commutative(k, u);
    }
    assert(k < limit) by (nonlinear_arith)
        requires
            k * u < limit * u,
            u > 0,
    ;
    let i = truncated(n);
    assert(i == saturated(n, i64::MIN as int, i64::MAX as int));
    if n.magnitude() > 0 {
        lemma_magnitude_order(0, n.magnitude());
        assert(k > 0) by (nonlinear_arith)
            requires
                k * u > 0,
                k >= 0,
        ;
    } else {
        lemma_whole_exact(0);
        assert(k == 0) by (nonlinear_arith)
            requires
                k * u == 0,
                u > 0,
        ;
    }
    let t = num_text(n);
    let d = numeral(k as nat);
    let minus = n.negative() && k > 0;
    lemma_numeral_number(k as nat);
    assert(is_digit(d[0]));
    assert(minus ==> t =~= seq!['-'] + d);
    assert(!minus ==> t =~= d);
    assert forall|j: int| 0 <= j < t.len() implies is_number_char(#[trigger] t[j]) by {
        if minus {
            if j > 0 {
                assert(t[j] == d[j - 1]);
            }
        }
    }
    assert(unsigned(t) =~= d);
    reveal_strlit("inf");
    reveal_strlit("infinity");
    reveal_strlit("nan");
    assert(small_letter(d[0]) == d[0]);
    lemma_all_digits_end(d, 0);
    assert(d.take(d.len() as int) + d.subrange(d.len() as int, d.len() as int) =~= d);
    assert(ten(0) == 1);
    assert(k as nat * ten(0) == k);
    lemma_rounded_exact(n.magnitude());
    assert(parsed(t) == Some(unsigned_zero(n)));
}

/// An integer that was written as one reads back as itself; a zero loses its sign.
pub proof fn lemma_integer_round_trip(n: Double)
    requires
        plain_integer(n),
    ensures
        parsed_json(num_text(n)) == Ok::<Json, Seq<char>>(Json::Num(unsigned_zero(n))),
{
    let t = num_text(n);
    lemma_integer_text(n);
    assert(is_number_char(t[0]));
    assert(!is_space(t[0]));
    assert(skip_space(t, 0) == 0);
    lemma_all_number_chars(t, 0);
    assert(t.subrange(0, t.len() as int) =~= t);
    assert(skip_space(t, t.len() as int) == t.len());
}

} // verus!
