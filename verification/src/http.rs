//! What the dashboard server makes of a request, and how it answers.
//!
//! The load of the viewers and the load of ssh have nothing to do with each other: an answer is
//! only ever made of what is in memory. A dozen people who refresh once a second open no
//! connection to a server.

use vstd::prelude::*;
use vstd::slice::slice_to_vec;
use vstd::utf8::{
    decode_utf8, encode_scalar, encode_utf8, encode_utf8_decode_utf8, encode_utf8_valid_utf8,
    is_char_boundary, valid_utf8,
};
use crate::collect::{is_snapshot, Collector};
use crate::decimal::small_letter;
use crate::gate::{skip_front, without_front};
use crate::json::{hex_char, hex_digit, hex_digit_char, hex_value};
use crate::model::Sample;
use crate::table::Table;
use crate::text::{
    chars_of, copy_text, eq_str, find, find_from, is_str, numeral, own, part, split, split_at,
    string_of, texts, trim, trimmed, u64_numeral, words, words_of,
};

verus! {

broadcast use vstd::string::group_string_axioms;

// ---------------------------------------------------------------- names of files

/// The last name in a path, past empty names and `.`; none where there is no such name, or it
/// is `..`.
pub open spec fn last_name(names: Seq<Seq<char>>) -> Option<Seq<char>>
    decreases names.len(),
{
    if names.len() == 0 {
        None
    } else if names.last().len() == 0 || names.last() == seq!['.'] {
        last_name(names.drop_last())
    } else if names.last() == seq!['.', '.'] {
        None
    } else {
        Some(names.last())
    }
}

/// Where the last point among the first `k` characters stands; -1 where there is none.
pub open spec fn last_point(s: Seq<char>, k: int) -> int
    decreases k,
{
    if k <= 0 {
        -1
    } else if s[k - 1] == '.' {
        k - 1
    } else {
        last_point(s, k - 1)
    }
}

/// What follows the last point of a path's last name. A point in front makes no extension.
pub open spec fn extension(path: Seq<char>) -> Option<Seq<char>> {
    match last_name(split(path, '/')) {
        Some(n) => {
            let i = last_point(n, n.len() as int);
            if i <= 0 {
                None
            } else {
                Some(n.skip(i + 1))
            }
        },
        None => None,
    }
}

/// The content type of an extension. A list without a default: what is not on it is not served.
pub open spec fn type_of(ext: Seq<char>) -> Option<Seq<char>> {
    if ext == "html"@ {
        Some("text/html; charset=utf-8"@)
    } else if ext == "json"@ {
        Some("application/json; charset=utf-8"@)
    } else if ext == "webmanifest"@ {
        Some("application/manifest+json"@)
    } else if ext == "png"@ {
        Some("image/png"@)
    } else if ext == "ico"@ {
        Some("image/x-icon"@)
    } else if ext == "svg"@ {
        Some("image/svg+xml"@)
    } else if ext == "webp"@ {
        Some("image/webp"@)
    } else if ext == "css"@ {
        Some("text/css"@)
    } else if ext == "js"@ {
        Some("text/javascript"@)
    } else {
        None
    }
}

/// The content type of a path.
pub open spec fn type_at(path: Seq<char>) -> Option<Seq<char>> {
    match extension(path) {
        Some(e) => type_of(e),
        None => None,
    }
}

fn extension_of(path: &[char]) -> (r: Option<Vec<char>>)
    ensures
        match r {
            Some(e) => extension(path@) == Some(e@),
            None => extension(path@) is None,
        },
{
    let names = split_at(path, '/');
    let ghost all = split(path@, '/');
    let mut k: usize = names.len();
    assert(all.take(all.len() as int) =~= all);
    while k > 0 && (names[k - 1].len() == 0 || is_str(names[k - 1].as_slice(), "."))
        invariant
            k <= names@.len(),
            all == texts(names@),
            last_name(all) == last_name(all.take(k as int)),
        decreases k,
    {
        proof {
            reveal_strlit(".");
            assert("."@ =~= seq!['.']);
            assert(all.take(k as int).drop_last() =~= all.take(k - 1));
            assert(all[k - 1] == names@[k - 1]@);
        }
        k = k - 1;
    }
    proof {
        reveal_strlit(".");
        reveal_strlit("..");
        assert("."@ =~= seq!['.']);
        assert(".."@ =~= seq!['.', '.']);
    }
    if k == 0 {
        return None;
    }
    assert(all.take(k as int).last() == names@[k - 1]@);
    if is_str(names[k - 1].as_slice(), "..") {
        return None;
    }
    let n = names[k - 1].as_slice();
    let mut i: usize = n.len();
    while i > 0 && n[i - 1] != '.'
        invariant
            i <= n@.len(),
            last_point(n@, n@.len() as int) == last_point(n@, i as int),
        decreases i,
    {
        i = i - 1;
    }
    if i <= 1 {
        None
    } else {
        let e = copy_text(part(n, i, n.len()));
        assert(e@ =~= n@.skip(i as int));
        Some(e)
    }
}

/// The content type of a path, where it is of a kind that is served.
pub fn content_type(path: &str) -> (r: Option<&'static str>)
    ensures
        match r {
            Some(t) => type_at(path@) == Some(t@),
            None => type_at(path@) is None,
        },
{
    let v = chars_of(path);
    let e = match extension_of(v.as_slice()) {
        Some(e) => e,
        None => {
            return None;
        },
    };
    let e = e.as_slice();
    if is_str(e, "html") {
        Some("text/html; charset=utf-8")
    } else if is_str(e, "json") {
        Some("application/json; charset=utf-8")
    } else if is_str(e, "webmanifest") {
        Some("application/manifest+json")
    } else if is_str(e, "png") {
        Some("image/png")
    } else if is_str(e, "ico") {
        Some("image/x-icon")
    } else if is_str(e, "svg") {
        Some("image/svg+xml")
    } else if is_str(e, "webp") {
        Some("image/webp")
    } else if is_str(e, "css") {
        Some("text/css")
    } else if is_str(e, "js") {
        Some("text/javascript")
    } else {
        None
    }
}

/// Whether a path leads down only: it does not start at the root or with `.`, and no name in it
/// is `..`.
pub open spec fn is_inside(path: Seq<char>) -> bool {
    let names = split(path, '/');
    &&& path.len() > 0 ==> path[0] != '/'
    &&& names[0] != seq!['.']
    &&& forall|i: int| 0 <= i < names.len() ==> #[trigger] names[i] != seq!['.', '.']
}

proof fn lemma_split_some(s: Seq<char>, c: char)
    ensures
        split(s, c).len() > 0,
{
}

/// Whether a path leads down only.
pub fn leads_inside(path: &str) -> (r: bool)
    ensures
        r == is_inside(path@),
{
    let v = chars_of(path);
    if v.len() > 0 && v[0] == '/' {
        return false;
    }
    let names = split_at(v.as_slice(), '/');
    let ghost all = split(path@, '/');
    proof {
        lemma_split_some(path@, '/');
        reveal_strlit(".");
        reveal_strlit("..");
        assert("."@ =~= seq!['.']);
        assert(".."@ =~= seq!['.', '.']);
        assert(all[0] == names@[0]@);
    }
    if is_str(names[0].as_slice(), ".") {
        return false;
    }
    let mut i: usize = 0;
    while i < names.len()
        invariant
            i <= names@.len(),
            all == texts(names@),
            all == split(path@, '/'),
            ".."@ == seq!['.', '.'],
            forall|k: int| 0 <= k < i ==> #[trigger] all[k] != seq!['.', '.'],
        decreases names@.len() - i,
    {
        assert(all[i as int] == names@[i as int]@);
        if is_str(names[i].as_slice(), "..") {
            return false;
        }
        i = i + 1;
    }
    true
}

// ---------------------------------------------------------------- escapes

/// The byte that two characters behind a percent sign stand for. A plus sign in front of one
/// digit passes.
pub open spec fn escaped(a: u8, b: u8) -> Option<u8> {
    match (hex_value(a as char), hex_value(b as char)) {
        (Some(x), Some(y)) => Some((x * 16 + y) as u8),
        (None, Some(y)) => if a == 0x2b {
            Some(y as u8)
        } else {
            None
        },
        _ => None,
    }
}

/// Whether an escape stands at `i`. Two more bytes must follow; whether a third one does makes
/// no difference.
pub open spec fn escape_at(b: Seq<u8>, i: int) -> bool {
    &&& 0 <= i
    &&& i + 2 < b.len()
    &&& b[i] == 0x25
    &&& escaped(b[i + 1], b[i + 2]) is Some
}

/// The bytes from `i` on, with the escapes replaced.
pub open spec fn unescaped(b: Seq<u8>, i: int) -> Seq<u8>
    decreases b.len() - i,
{
    if i < 0 || i >= b.len() {
        seq![]
    } else if escape_at(b, i) {
        seq![escaped(b[i + 1], b[i + 2]).unwrap()] + unescaped(b, i + 3)
    } else {
        seq![b[i]] + unescaped(b, i + 1)
    }
}

/// Whether no character stands across the end of what could be an escape.
pub open spec fn is_decodable(b: Seq<u8>) -> bool {
    forall|i: int|
        0 <= i && i + 2 < b.len() && #[trigger] b[i] == 0x25 ==> is_char_boundary(b, i + 3)
}

/// What `String::from_utf8_lossy` makes of bytes.
pub uninterp spec fn lossy(b: Seq<u8>) -> Seq<char>;

/// `String::from_utf8_lossy`: bytes as text. Where they are UTF-8, the text is the one that they
/// encode; how the rest is replaced is not said here, the text has a name only.
#[verifier::external_body]
fn text_of(b: &[u8]) -> (r: String)
    ensures
        r@ == lossy(b@),
        valid_utf8(b@) ==> r@ == decode_utf8(b@),
{
    String::from_utf8_lossy(b).into_owned()
}

/// Whether no character stands across the end of what could be an escape.
pub fn can_decode(s: &str) -> (r: bool)
    ensures
        r == is_decodable(encode_utf8(s@)),
{
    let b = s.as_bytes();
    let n: usize = b.len();
    let mut i: usize = 0;
    while i < n && n - i > 2
        invariant
            n == b@.len(),
            b@ == encode_utf8(s@),
            i <= n,
            forall|k: int|
                0 <= k < i && k + 2 < n && #[trigger] b@[k] == 0x25 ==> is_char_boundary(b@, k + 3),
        decreases n - i,
    {
        if b[i] == 0x25 && !s.is_char_boundary(i + 3) {
            return false;
        }
        i = i + 1;
    }
    true
}

/// A text with the escapes replaced.
pub fn percent_decode(s: &str) -> (r: String)
    requires
        is_decodable(encode_utf8(s@)),
    ensures
        r@ == lossy(unescaped(encode_utf8(s@), 0)),
        valid_utf8(unescaped(encode_utf8(s@), 0)) ==> r@ == decode_utf8(
            unescaped(encode_utf8(s@), 0),
        ),
{
    let b = s.as_bytes();
    let n: usize = b.len();
    let mut out: Vec<u8> = Vec::new();
    let mut i: usize = 0;
    assert(out@ + unescaped(b@, 0) =~= unescaped(b@, 0));
    while i < n
        invariant
            n == b@.len(),
            i <= n,
            out@ + unescaped(b@, i as int) == unescaped(b@, 0),
        decreases n - i,
    {
        let ghost held = out@;
        let ghost rest = unescaped(b@, i as int);
        if b[i] == 0x25 && n - i > 2 {
            if let Some(y) = hex_digit(b[i + 2] as char) {
                let high: Option<u32> = match hex_digit(b[i + 1] as char) {
                    Some(x) => Some(x),
                    None => if b[i + 1] == 0x2b {
                        Some(0)
                    } else {
                        None
                    },
                };
                if let Some(x) = high {
                    let v: u8 = (x * 16 + y) as u8;
                    assert(escaped(b@[i + 1], b@[i + 2]) == Some(v));
                    out.push(v);
                    assert(held + rest =~= out@ + unescaped(b@, i + 3));
                    i = i + 3;
                    continue;
                }
            }
        }
        assert(!escape_at(b@, i as int));
        out.push(b[i]);
        assert(held + rest =~= out@ + unescaped(b@, i + 1));
        i = i + 1;
    }
    assert(out@ + unescaped(b@, i as int) =~= out@);
    text_of(out.as_slice())
}

proof fn lemma_no_escape(b: Seq<u8>, i: int)
    requires
        0 <= i <= b.len(),
        forall|k: int| 0 <= k < b.len() ==> #[trigger] b[k] != 0x25,
    ensures
        unescaped(b, i) == b.skip(i),
    decreases b.len() - i,
{
    if i < b.len() {
        lemma_no_escape(b, i + 1);
        assert(seq![b[i]] + b.skip(i + 1) =~= b.skip(i));
    } else {
        assert(b.skip(i) =~= seq![]);
    }
}

proof fn lemma_scalar_bytes(c: char)
    requires
        c != '%',
    ensures
        forall|k: int|
            0 <= k < encode_scalar(c as u32).len() ==> #[trigger] encode_scalar(c as u32)[k] != 0x25,
{
    let u = c as u32;
    assert(u <= 0x7f && u != 0x25 ==> (u & 0x7f) as u8 != 0x25) by (bit_vector);
    assert((0xc0 | ((u >> 6) & 0x1f) as u8) != 0x25) by (bit_vector);
    assert((0xe0 | ((u >> 12) & 0x0f) as u8) != 0x25) by (bit_vector);
    assert((0xf0 | ((u >> 18) & 0x7) as u8) != 0x25) by (bit_vector);
    assert((0x80 | (u & 0x3f) as u8) != 0x25) by (bit_vector);
    assert((0x80 | ((u >> 6) & 0x3f) as u8) != 0x25) by (bit_vector);
    assert((0x80 | ((u >> 12) & 0x3f) as u8) != 0x25) by (bit_vector);
}

proof fn lemma_text_bytes(s: Seq<char>)
    requires
        forall|k: int| 0 <= k < s.len() ==> #[trigger] s[k] != '%',
    ensures
        forall|k: int| 0 <= k < encode_utf8(s).len() ==> #[trigger] encode_utf8(s)[k] != 0x25,
    decreases s.len(),
{
    if s.len() > 0 {
        let front = encode_scalar(s[0] as u32);
        let back = encode_utf8(s.drop_first());
        lemma_scalar_bytes(s[0]);
        lemma_text_bytes(s.drop_first());
        assert forall|k: int| 0 <= k < encode_utf8(s).len() implies #[trigger] encode_utf8(s)[k]
            != 0x25 by {
            if k < front.len() {
                assert(front[k] != 0x25);
            } else {
                assert(back[k - front.len()] != 0x25);
            }
        }
    }
}

/// A text without a percent sign is decoded as it stands.
pub proof fn lemma_plain_stays(s: Seq<char>)
    requires
        forall|k: int| 0 <= k < s.len() ==> #[trigger] s[k] != '%',
    ensures
        is_decodable(encode_utf8(s)),
        valid_utf8(unescaped(encode_utf8(s), 0)),
        decode_utf8(unescaped(encode_utf8(s), 0)) == s,
{
    lemma_text_bytes(s);
    lemma_no_escape(encode_utf8(s), 0);
    assert(encode_utf8(s).skip(0) =~= encode_utf8(s));
    encode_utf8_valid_utf8(s);
    encode_utf8_decode_utf8(s);
}

// ---------------------------------------------------------------- tags

/// The FNV-1a hash of the first `n` bytes.
pub open spec fn hash(b: Seq<u8>, n: int) -> u64
    decreases n,
{
    if n <= 0 {
        0xcbf2_9ce4_8422_2325
    } else {
        mixed(hash(b, n - 1), b[n - 1])
    }
}

/// A hash with one more byte in it.
pub open spec fn mixed(h: u64, b: u8) -> u64 {
    (((h ^ (b as u64)) * 0x100_0000_01b3) % 0x1_0000_0000_0000_0000) as u64
}

/// The FNV-1a hash of bytes.
pub fn fnv1a(data: &[u8]) -> (r: u64)
    ensures
        r == hash(data@, data@.len() as int),
{
    let mut h: u64 = 0xcbf2_9ce4_8422_2325;
    let mut i: usize = 0;
    while i < data.len()
        invariant
            i <= data@.len(),
            h == hash(data@, i as int),
        decreases data@.len() - i,
    {
        h = (h ^ (data[i] as u64)).wrapping_mul(0x100_0000_01b3);
        i = i + 1;
    }
    h
}

/// A multiple of the factor of the hash, taken back.
proof fn lemma_factor_inverts(x: int)
    requires
        0 <= x < 0x1_0000_0000_0000_0000,
    ensures
        ((x * 0x100_0000_01b3) % 0x1_0000_0000_0000_0000 * 0xce96_5057_aff6_957b)
            % 0x1_0000_0000_0000_0000 == x,
{
    let m: int = 0x1_0000_0000_0000_0000;
    let p: int = 0x100_0000_01b3;
    let q: int = 0xce96_5057_aff6_957b;
    let k: int = (p * q) / m;
    assert(p * q == k * m + 1);
    vstd::arithmetic::div_mod::lemma_mul_mod_noop_left(x * p, q, m);
    assert(x * p * q == x + (x * k) * m) by (nonlinear_arith)
        requires
            p * q == k * m + 1,
    ;
    vstd::arithmetic::div_mod::lemma_mod_multiples_vanish(x * k, x, m);
    assert((x + (x * k) * m) % m == x % m) by {
        assert(m * (x * k) + x == x + (x * k) * m) by (nonlinear_arith);
    }
    vstd::arithmetic::div_mod::lemma_small_mod(x as nat, m as nat);
}

/// Neither another hash nor another byte gives the same hash.
proof fn lemma_mixed_apart(g: u64, h: u64, b: u8, c: u8)
    ensures
        mixed(g, b) == mixed(h, c) ==> g ^ (b as u64) == h ^ (c as u64),
        g ^ (b as u64) == h ^ (b as u64) ==> g == h,
        g ^ (b as u64) == g ^ (c as u64) ==> b == c,
{
    lemma_factor_inverts((g ^ (b as u64)) as int);
    lemma_factor_inverts((h ^ (c as u64)) as int);
    assert(g ^ (b as u64) == h ^ (b as u64) ==> g == h) by (bit_vector);
    assert(g ^ (b as u64) == g ^ (c as u64) ==> b == c) by (bit_vector);
}

proof fn lemma_hash_front(a: Seq<u8>, b: Seq<u8>, n: int)
    requires
        forall|i: int| 0 <= i < n ==> a[i] == b[i],
    ensures
        hash(a, n) == hash(b, n),
    decreases n,
{
    if n > 0 {
        lemma_hash_front(a, b, n - 1);
    }
}

proof fn lemma_hash_back(a: Seq<u8>, b: Seq<u8>, k: int, n: int)
    requires
        0 <= k <= n,
        hash(a, k) != hash(b, k),
        forall|i: int| k <= i < n ==> a[i] == b[i],
    ensures
        hash(a, n) != hash(b, n),
    decreases n - k,
{
    if k < n {
        lemma_mixed_apart(hash(a, k), hash(b, k), a[k], b[k]);
        lemma_hash_back(a, b, k + 1, n);
    }
}

/// A body that differs from another in one byte has another hash.
pub proof fn lemma_one_byte_shows(a: Seq<u8>, b: Seq<u8>, k: int)
    requires
        a.len() == b.len(),
        0 <= k < a.len(),
        a[k] != b[k],
        forall|i: int| 0 <= i < a.len() && i != k ==> a[i] == b[i],
    ensures
        hash(a, a.len() as int) != hash(b, b.len() as int),
{
    lemma_hash_front(a, b, k);
    lemma_mixed_apart(hash(a, k), hash(b, k), a[k], b[k]);
    lemma_hash_back(a, b, k + 1, a.len() as int);
}

/// The hexadecimal numeral of `n`, without leading zeros.
pub open spec fn hex_numeral(n: nat) -> Seq<char>
    decreases n,
{
    if n < 16 {
        seq![hex_char(n)]
    } else {
        hex_numeral(n / 16).push(hex_char(n % 16))
    }
}

/// The tag of a body: its hash between double quotes.
pub open spec fn tag(b: Seq<u8>) -> Seq<char> {
    seq!['"'] + hex_numeral(hash(b, b.len() as int) as nat) + seq!['"']
}

fn hex_of(n: u64) -> (r: String)
    ensures
        r@ == hex_numeral(n as nat),
    decreases n,
{
    if n < 16 {
        let mut s = String::new();
        s.push(hex_digit_char(n as u32));
        assert(s@ =~= hex_numeral(n as nat));
        s
    } else {
        let mut s = hex_of(n / 16);
        s.push(hex_digit_char((n % 16) as u32));
        s
    }
}

/// The tag of a body.
pub fn tag_of(body: &[u8]) -> (r: String)
    ensures
        r@ == tag(body@),
{
    let mut s = String::new();
    s.push('"');
    s.append(hex_of(fnv1a(body)).as_str());
    s.push('"');
    assert(s@ =~= tag(body@));
    s
}

// ---------------------------------------------------------------- requests

/// The head of a request, as far as it is looked at.
pub struct Request {
    pub method: String,
    pub target: String,
    /// The tag of the body that the viewer has.
    pub if_none_match: Option<String>,
}

/// A text with small letters in place of ASCII capitals.
pub open spec fn lowered(s: Seq<char>) -> Seq<char> {
    Seq::new(s.len(), |i: int| small_letter(s[i]))
}

/// The name and the value of a header line; none where it has no colon.
pub open spec fn header(line: Seq<char>) -> Option<(Seq<char>, Seq<char>)> {
    let i = find_from(line, ':', 0);
    if i < line.len() {
        Some((lowered(trimmed(line.take(i))), trimmed(line.skip(i + 1))))
    } else {
        None
    }
}

/// The word at `i`, or a default where there are fewer.
pub open spec fn word_or(ws: Seq<Seq<char>>, i: int, d: Seq<char>) -> Seq<char> {
    if i < ws.len() {
        ws[i]
    } else {
        d
    }
}

fn lower(s: &[char]) -> (r: Vec<char>)
    ensures
        r@ == lowered(s@),
{
    let mut v: Vec<char> = Vec::new();
    let mut i: usize = 0;
    while i < s.len()
        invariant
            i <= s@.len(),
            v@.len() == i,
            forall|k: int| 0 <= k < i ==> #[trigger] v@[k] == small_letter(s@[k]),
        decreases s@.len() - i,
    {
        let c: char = s[i];
        if 'A' <= c && c <= 'Z' {
            v.push(((c as u8) + 32) as char);
        } else {
            v.push(c);
        }
        i = i + 1;
    }
    assert(v@ =~= lowered(s@));
    v
}

impl Request {
    /// The request whose first line is `line`.
    pub fn new(line: &str) -> (r: Request)
        ensures
            r.method@ == word_or(words(line@, 0), 0, ""@),
            r.target@ == word_or(words(line@, 0), 1, "/"@),
            r.if_none_match is None,
    {
        let v = chars_of(line);
        let ws = words_of(v.as_slice());
        let ghost all = words(line@, 0);
        assert(all == texts(ws@));
        let method: String = if ws.len() > 0 {
            assert(all[0] == ws@[0]@);
            string_of(ws[0].as_slice())
        } else {
            own("")
        };
        let target: String = if ws.len() > 1 {
            assert(all[1] == ws@[1]@);
            string_of(ws[1].as_slice())
        } else {
            own("/")
        };
        Request { method, target, if_none_match: None }
    }

    /// Takes in another line of the head, and says whether it was the blank one at the end.
    pub fn feed(&mut self, line: &str) -> (r: bool)
        ensures
            r == (trimmed(line@).len() == 0),
            final(self).method == old(self).method,
            final(self).target == old(self).target,
            match header(line@) {
                Some((k, v)) => if !r && k == "if-none-match"@ {
                    final(self).if_none_match matches Some(t) && t@ == v
                } else {
                    final(self).if_none_match == old(self).if_none_match
                },
                None => final(self).if_none_match == old(self).if_none_match,
            },
    {
        let v = chars_of(line);
        let s = v.as_slice();
        if trim(s).len() == 0 {
            return true;
        }
        let n: usize = s.len();
        let i: usize = find(s, ':', 0);
        if i < n {
            let front = part(s, 0, i);
            let back = part(s, i + 1, n);
            assert(front@ =~= line@.take(i as int));
            assert(back@ =~= line@.skip(i + 1));
            let k = lower(trim(front));
            if is_str(k.as_slice(), "if-none-match") {
                self.if_none_match = Some(string_of(trim(back)));
            }
        }
        false
    }
}

// ---------------------------------------------------------------- routes

/// What a request asks for.
pub enum Route {
    /// A method that is not answered.
    NotAllowed,
    /// The page.
    Page,
    /// The statistics.
    Stats,
    /// The snapshot.
    Status,
    /// The file at a path below the directory of the page, and its content type.
    File(String, &'static str),
    /// Nothing that is served.
    NotFound,
    /// A path that cannot be decoded; the connection is closed without an answer.
    Closed,
}

/// The path of a target: what stands before the question mark.
pub open spec fn path_in(target: Seq<char>) -> Seq<char> {
    target.take(find_from(target, '?', 0))
}

/// Whether `r` is the route to the decoded path of a file.
pub open spec fn is_file_route(r: Route, rel: Seq<char>) -> bool {
    match r {
        Route::File(p, t) => p@ == rel && type_at(rel) == Some(t@) && is_inside(rel),
        Route::NotFound => type_at(rel) is None || !is_inside(rel),
        _ => false,
    }
}

/// Whether `r` is the route of a request.
pub open spec fn is_route(r: Route, method: Seq<char>, target: Seq<char>) -> bool {
    let path = path_in(target);
    let bytes = encode_utf8(without_front(path, '/'));
    if method != "GET"@ && method != "HEAD"@ {
        r is NotAllowed
    } else if path == "/"@ || path == "/index.html"@ {
        r is Page
    } else if path == "/stats.json"@ || path == "/api/stats"@ {
        r is Stats
    } else if path == "/status.json"@ || path == "/api/status"@ {
        r is Status
    } else if !is_decodable(bytes) {
        r is Closed
    } else {
        is_file_route(r, lossy(unescaped(bytes, 0)))
    }
}

/// The route to the decoded path of a file. The names in the path are looked at before the file
/// system is: what does not lead down only is not served, whether or not it is there.
pub fn file_route(rel: &str) -> (r: Route)
    ensures
        is_file_route(r, rel@),
{
    match content_type(rel) {
        Some(t) => if leads_inside(rel) {
            Route::File(own(rel), t)
        } else {
            Route::NotFound
        },
        None => Route::NotFound,
    }
}

/// The route of a request.
pub fn route(method: &str, target: &str) -> (r: Route)
    ensures
        is_route(r, method@, target@),
{
    if !eq_str(method, "GET") && !eq_str(method, "HEAD") {
        return Route::NotAllowed;
    }
    let v = chars_of(target);
    let i: usize = find(v.as_slice(), '?', 0);
    let path = part(v.as_slice(), 0, i);
    assert(path@ =~= path_in(target@));
    if is_str(path, "/") || is_str(path, "/index.html") {
        return Route::Page;
    }
    if is_str(path, "/stats.json") || is_str(path, "/api/stats") {
        return Route::Stats;
    }
    if is_str(path, "/status.json") || is_str(path, "/api/status") {
        return Route::Status;
    }
    let rel = string_of(skip_front(path, '/'));
    if !can_decode(rel.as_str()) {
        return Route::Closed;
    }
    let rel = percent_decode(rel.as_str());
    file_route(rel.as_str())
}

/// A file is served only where its extension is on the list and its path leads down only.
pub proof fn lemma_files_stay_inside(r: Route, method: Seq<char>, target: Seq<char>)
    requires
        is_route(r, method, target),
        r is File,
    ensures
        method == "GET"@ || method == "HEAD"@,
        is_inside(r->File_0@),
        extension(r->File_0@) is Some,
        type_of(extension(r->File_0@).unwrap()) == Some(r->File_1@),
{
}

// ---------------------------------------------------------------- answers

/// The headers that each answer carries. The page loads nothing from anywhere else, so the
/// policy can be this tight; `unsafe-inline` is for the one inline script and style.
pub const SECURITY_HEADERS: &'static str =
    "Content-Security-Policy: default-src 'none'; script-src 'unsafe-inline'; \
     style-src 'unsafe-inline'; connect-src 'self'; img-src 'self' data:; manifest-src 'self'; \
     base-uri 'none'; form-action 'none'; frame-ancestors 'none'\r\n\
     X-Content-Type-Options: nosniff\r\n\
     X-Frame-Options: DENY\r\n\
     Referrer-Policy: no-referrer\r\n\
     Permissions-Policy: geolocation=(), camera=(), microphone=()\r\n\
     Cross-Origin-Opener-Policy: same-origin\r\n\
     Cross-Origin-Resource-Policy: same-origin\r\n\
     Strict-Transport-Security: max-age=63072000; includeSubDomains\r\n";

/// What is said of a status code.
pub open spec fn reason(code: u16) -> Seq<char> {
    if code == 200 {
        "OK"@
    } else if code == 404 {
        "Not Found"@
    } else if code == 405 {
        "Method Not Allowed"@
    } else {
        "Internal Server Error"@
    }
}

/// The head of the answer that what the viewer has still holds.
pub open spec fn unchanged_head(tag: Seq<char>) -> Seq<char> {
    "HTTP/1.1 304 Not Modified\r\nETag: "@ + tag + "\r\nCache-Control: no-cache\r\n"@
        + SECURITY_HEADERS@ + "\r\n"@
}

/// What an answer says of being kept.
pub open spec fn keeping(tag: Option<Seq<char>>) -> Seq<char> {
    match tag {
        Some(t) => "ETag: "@ + t + "\r\nCache-Control: no-cache\r\n"@,
        None => "Cache-Control: no-store\r\n"@,
    }
}

/// The head of an answer with a body of `len` bytes.
pub open spec fn full_head(code: u16, ct: Seq<char>, len: nat, tag: Option<Seq<char>>) -> Seq<char> {
    "HTTP/1.1 "@ + numeral(code as nat) + " "@ + reason(code) + "\r\nContent-Type: "@ + ct
        + "\r\nContent-Length: "@ + numeral(len) + "\r\n"@ + keeping(tag) + SECURITY_HEADERS@
        + "Connection: close\r\n\r\n"@
}

/// What is sent: a head, and the body where one follows.
pub struct Reply {
    pub head: String,
    pub body: Vec<u8>,
}

/// Whether `r` is the answer with that code and body. A viewer that has the body already is told
/// so; with a tag comes the tag that the viewer sent, if any.
pub open spec fn is_reply(
    r: Reply,
    code: u16,
    body: Seq<u8>,
    ct: Seq<char>,
    tag: Option<(Seq<char>, Option<Seq<char>>)>,
    head: bool,
) -> bool {
    if tag is Some && tag.unwrap().1 == Some(tag.unwrap().0) {
        r.head@ == unchanged_head(tag.unwrap().0) && r.body@.len() == 0
    } else {
        &&& r.head@ == full_head(
            code,
            ct,
            body.len(),
            match tag {
                Some((t, _)) => Some(t),
                None => None,
            },
        )
        &&& r.body@ == if head {
            seq![]
        } else {
            body
        }
    }
}

/// A tag and the one that the viewer sent, as text.
pub open spec fn tags(tag: Option<(&str, Option<&str>)>) -> Option<(Seq<char>, Option<Seq<char>>)> {
    match tag {
        Some((t, Some(i))) => Some((t@, Some(i@))),
        Some((t, None)) => Some((t@, None)),
        None => None,
    }
}

/// The answer with that code and body.
pub fn send(code: u16, body: &[u8], ct: &str, tag: Option<(&str, Option<&str>)>, head: bool) -> (r:
    Reply)
    ensures
        is_reply(r, code, body@, ct@, tags(tag), head),
{
    if let Some((t, Some(inm))) = tag {
        if eq_str(inm, t) {
            let mut h = own("HTTP/1.1 304 Not Modified\r\nETag: ");
            h.append(t);
            h.append("\r\nCache-Control: no-cache\r\n");
            h.append(SECURITY_HEADERS);
            h.append("\r\n");
            return Reply { head: h, body: Vec::new() };
        }
    }
    let reason: &'static str = if code == 200 {
        "OK"
    } else if code == 404 {
        "Not Found"
    } else if code == 405 {
        "Method Not Allowed"
    } else {
        "Internal Server Error"
    };
    let mut keep = String::new();
    match tag {
        Some((t, _)) => {
            keep.append("ETag: ");
            keep.append(t);
            keep.append("\r\nCache-Control: no-cache\r\n");
            assert(keep@ =~= keeping(Some(t@)));
        },
        None => {
            keep.append("Cache-Control: no-store\r\n");
            assert(keep@ =~= keeping(None));
        },
    }
    let mut h = own("HTTP/1.1 ");
    h.append(u64_numeral(code as u64).as_str());
    h.append(" ");
    h.append(reason);
    h.append("\r\nContent-Type: ");
    h.append(ct);
    h.append("\r\nContent-Length: ");
    h.append(u64_numeral(body.len() as u64).as_str());
    h.append("\r\n");
    h.append(keep.as_str());
    h.append(SECURITY_HEADERS);
    h.append("Connection: close\r\n\r\n");
    Reply {
        head: h,
        body: if head {
            Vec::new()
        } else {
            slice_to_vec(body)
        },
    }
}

/// A tag that the viewer sent, as text.
pub open spec fn sent(inm: Option<&str>) -> Option<Seq<char>> {
    match inm {
        Some(t) => Some(t@),
        None => None,
    }
}

/// Whether `r` is the answer with a line of text.
pub open spec fn is_plain(r: Reply, code: u16, text: Seq<char>, head: bool) -> bool {
    is_reply(r, code, encode_utf8(text), "text/plain; charset=utf-8"@, None, head)
}

/// Whether `r` is the answer with a body that was found.
pub open spec fn is_found(
    r: Reply,
    body: Seq<u8>,
    ct: Seq<char>,
    inm: Option<Seq<char>>,
    head: bool,
) -> bool {
    is_reply(r, 200, body, ct, Some((tag(body), inm)), head)
}

/// Whether `r` is the answer to a request, where `body` is what was found for it.
pub open spec fn is_answer(
    r: Option<Reply>,
    route: Route,
    body: Option<Seq<u8>>,
    inm: Option<Seq<char>>,
    head: bool,
) -> bool {
    match (route, body) {
        (Route::NotAllowed, _) => r matches Some(a) && is_plain(a, 405, "method not allowed"@, head),
        (Route::Page, Some(b)) => r matches Some(a) && is_found(
            a,
            b,
            "text/html; charset=utf-8"@,
            inm,
            head,
        ),
        (Route::Page, None) => r matches Some(a) && is_plain(
            a,
            500,
            "web/index.html missing"@,
            head,
        ),
        (Route::Stats, Some(b)) => r matches Some(a) && is_found(
            a,
            b,
            "application/json; charset=utf-8"@,
            inm,
            head,
        ),
        (Route::Status, Some(b)) => r matches Some(a) && is_found(
            a,
            b,
            "application/json; charset=utf-8"@,
            inm,
            head,
        ),
        (Route::File(_, ct), Some(b)) => r matches Some(a) && is_found(a, b, ct@, inm, head),
        (Route::File(_, _), None) => r matches Some(a) && is_plain(a, 404, "not found"@, head),
        (Route::NotFound, _) => r matches Some(a) && is_plain(a, 404, "not found"@, head),
        _ => r is None,
    }
}

fn plain(code: u16, text: &str, head: bool) -> (r: Reply)
    ensures
        is_plain(r, code, text@, head),
{
    send(code, text.as_bytes(), "text/plain; charset=utf-8", None, head)
}

fn found(body: &[u8], ct: &str, inm: Option<&str>, head: bool) -> (r: Reply)
    ensures
        is_found(r, body@, ct@, sent(inm), head),
{
    let t = tag_of(body);
    send(200, body, ct, Some((t.as_str(), inm)), head)
}

/// The bytes that were found, if any.
pub open spec fn bytes_in(body: Option<&[u8]>) -> Option<Seq<u8>> {
    match body {
        Some(b) => Some(b@),
        None => None,
    }
}

/// The answer to a request, where `body` is what was found for it. Where nothing can be
/// answered, the connection is closed.
pub fn answer(route: &Route, body: Option<&[u8]>, inm: Option<&str>, head: bool) -> (r: Option<
    Reply,
>)
    ensures
        is_answer(r, *route, bytes_in(body), sent(inm), head),
{
    match route {
        Route::NotAllowed => Some(plain(405, "method not allowed", head)),
        Route::Page => match body {
            Some(b) => Some(found(b, "text/html; charset=utf-8", inm, head)),
            None => Some(plain(500, "web/index.html missing", head)),
        },
        Route::Stats => match body {
            Some(b) => Some(found(b, "application/json; charset=utf-8", inm, head)),
            None => None,
        },
        Route::Status => match body {
            Some(b) => Some(found(b, "application/json; charset=utf-8", inm, head)),
            None => None,
        },
        Route::File(_, ct) => match body {
            Some(b) => Some(found(b, ct, inm, head)),
            None => Some(plain(404, "not found", head)),
        },
        Route::NotFound => Some(plain(404, "not found", head)),
        Route::Closed => None,
    }
}

/// No body follows the answer to a request for the head alone.
pub proof fn lemma_head_is_bodiless(
    r: Reply,
    route: Route,
    body: Option<Seq<u8>>,
    inm: Option<Seq<char>>,
)
    requires
        is_answer(Some(r), route, body, inm, true),
    ensures
        r.body@.len() == 0,
{
}

/// Whether a route leads to a body.
pub open spec fn leads_to_body(route: Route) -> bool {
    route is Page || route is Stats || route is Status || route is File
}

/// A viewer that sends the tag of the body is told that it still holds, and gets no body.
pub proof fn lemma_same_tag_is_short(r: Reply, route: Route, body: Seq<u8>, head: bool)
    requires
        leads_to_body(route),
        is_answer(Some(r), route, Some(body), Some(tag(body)), head),
    ensures
        r.head@ == unchanged_head(tag(body)),
        r.body@.len() == 0,
{
}

proof fn lemma_hex_char(a: nat, b: nat)
    requires
        a < 16,
        b < 16,
        hex_char(a) == hex_char(b),
    ensures
        a == b,
{
}

proof fn lemma_hex_apart(a: nat, b: nat)
    requires
        hex_numeral(a) == hex_numeral(b),
    ensures
        a == b,
    decreases a,
{
    reveal_with_fuel(hex_numeral, 2);
    assert(hex_numeral(a).last() == hex_char(a % 16));
    assert(hex_numeral(b).last() == hex_char(b % 16));
    lemma_hex_char(a % 16, b % 16);
    if a >= 16 {
        if b < 16 {
            assert(hex_numeral(a / 16).len() > 0);
            assert(false);
        }
        assert(hex_numeral(a).drop_last() =~= hex_numeral(a / 16));
        assert(hex_numeral(b).drop_last() =~= hex_numeral(b / 16));
        lemma_hex_apart(a / 16, b / 16);
    } else if b >= 16 {
        assert(hex_numeral(b / 16).len() > 0);
        assert(false);
    }
}

/// A viewer that sends the tag of a body of which one byte has changed gets the body anew.
pub proof fn lemma_changed_byte_is_sent(
    r: Reply,
    route: Route,
    body: Seq<u8>,
    stale: Seq<u8>,
    k: int,
)
    requires
        leads_to_body(route),
        is_answer(Some(r), route, Some(body), Some(tag(stale)), false),
        body.len() == stale.len(),
        0 <= k < body.len(),
        body[k] != stale[k],
        forall|i: int| 0 <= i < body.len() && i != k ==> body[i] == stale[i],
    ensures
        r.body@ == body,
{
    lemma_one_byte_shows(body, stale, k);
    let x = hex_numeral(hash(body, body.len() as int) as nat);
    let y = hex_numeral(hash(stale, stale.len() as int) as nat);
    if tag(body) == tag(stale) {
        assert(x =~= tag(body).subrange(1, tag(body).len() - 1));
        assert(y =~= tag(stale).subrange(1, tag(stale).len() - 1));
        lemma_hex_apart(hash(body, body.len() as int) as nat, hash(stale, stale.len() as int) as nat);
    }
}

// ---------------------------------------------------------------- what is kept

/// The snapshot as it was last sent.
pub struct Cache {
    pub body: Vec<u8>,
    pub etag: String,
    pub stamp: u64,
}

/// What the server keeps between requests. Only the snapshot and the statistics change; each is
/// written once for all viewers.
pub struct Server {
    pub web: String,
    pub public: bool,
    pub cache: Cache,
    /// When the statistics were written, and what was written.
    pub stats: (u32, Vec<u8>),
}

/// The time of the newest of the first `k` samples.
pub open spec fn newest(samples: Seq<(Seq<char>, Sample)>, k: int) -> u64
    decreases k,
{
    if k <= 0 {
        0
    } else if samples[k - 1].1.ts > newest(samples, k - 1) {
        samples[k - 1].1.ts
    } else {
        newest(samples, k - 1)
    }
}

fn newest_of(samples: &Table<Sample>) -> (r: u64)
    ensures
        r == newest(samples@, samples@.len() as int),
{
    let mut t: u64 = 0;
    let mut k: usize = 0;
    while k < samples.entries.len()
        invariant
            k <= samples@.len(),
            t == newest(samples@, k as int),
        decreases samples@.len() - k,
    {
        if samples.entries[k].1.ts > t {
            t = samples.entries[k].1.ts;
        }
        k = k + 1;
    }
    t
}

impl Server {
    /// Whether the tag that is kept is that of the snapshot that is kept.
    pub open spec fn wf(self) -> bool {
        self.cache.body@.len() > 0 ==> self.cache.etag@ == tag(self.cache.body@)
    }

    /// Whether the snapshot that is kept is the one of that time.
    pub open spec fn holds(self, stamp: u64) -> bool {
        self.cache.stamp == stamp && self.cache.body@.len() > 0
    }

    /// Whether the statistics are to be written again.
    pub open spec fn is_due(self, now: u32) -> bool {
        self.stats.1@.len() == 0 || now - self.stats.0 >= 60
    }

    /// A server that has sent nothing yet.
    pub fn new(web: String, public: bool) -> (r: Server)
        ensures
            r.wf(),
            r.web == web,
            r.public == public,
            r.cache.body@.len() == 0,
            r.cache.etag@.len() == 0,
            r.cache.stamp == u64::MAX,
            r.stats.0 == 0,
            r.stats.1@.len() == 0,
    {
        Server {
            web,
            public,
            cache: Cache { body: Vec::new(), etag: String::new(), stamp: u64::MAX },
            stats: (0, Vec::new()),
        }
    }

    /// The snapshot and its tag. The time of the newest sample stands for the snapshot: while it
    /// does not move, what was written before is sent again.
    pub fn status_body(&mut self, c: &Collector) -> (r: (Vec<u8>, String))
        requires
            old(self).wf(),
        ensures
            final(self).wf(),
            final(self).web == old(self).web,
            final(self).public == old(self).public,
            final(self).stats == old(self).stats,
            r.0@ == final(self).cache.body@,
            r.1@ == final(self).cache.etag@,
            ({
                let stamp = newest(c.samples@, c.samples@.len() as int);
                if old(self).holds(stamp) {
                    final(self).cache == old(self).cache
                } else {
                    &&& final(self).cache.stamp == stamp
                    &&& final(self).cache.etag@ == tag(final(self).cache.body@)
                    &&& exists|t: Seq<char>| #[trigger]
                        is_snapshot(t, c.cfg, c.samples@, old(self).public)
                            && final(self).cache.body@ == encode_utf8(t)
                }
            }),
    {
        let stamp: u64 = newest_of(&c.samples);
        if self.cache.stamp == stamp && self.cache.body.len() > 0 {
            return (slice_to_vec(self.cache.body.as_slice()), own(self.cache.etag.as_str()));
        }
        let text = c.snapshot_json(self.public);
        let body = slice_to_vec(text.as_str().as_bytes());
        let etag = tag_of(body.as_slice());
        let r = (slice_to_vec(body.as_slice()), own(etag.as_str()));
        self.cache = Cache { body, etag, stamp };
        assert(is_snapshot(text@, c.cfg, c.samples@, self.public));
        r
    }

    /// Whether the statistics are to be written again. They are read from days of files, which
    /// a dozen viewers must not each cause.
    pub fn stats_due(&self, now: u32) -> (r: bool)
        ensures
            r == self.is_due(now),
    {
        self.stats.1.len() == 0 || (now >= self.stats.0 && now - self.stats.0 >= 60)
    }

    /// Keeps the statistics that were written.
    pub fn keep_stats(&mut self, now: u32, body: &str)
        ensures
            final(self).web == old(self).web,
            final(self).public == old(self).public,
            final(self).cache == old(self).cache,
            final(self).stats.0 == now,
            final(self).stats.1@ == encode_utf8(body@),
    {
        self.stats = (now, slice_to_vec(body.as_bytes()));
    }

    /// The statistics that are kept.
    pub fn stats_body(&self) -> (r: Vec<u8>)
        ensures
            r@ == self.stats.1@,
    {
        slice_to_vec(self.stats.1.as_slice())
    }
}

/// Statistics that were kept are not written again within a minute.
pub proof fn lemma_stats_stay_a_minute(s: Server, now: u32)
    requires
        s.stats.1@.len() > 0,
        now < s.stats.0 + 60,
    ensures
        !s.is_due(now),
{
}

} // verus!
