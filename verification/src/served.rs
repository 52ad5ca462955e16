//! What viewers are served.

use vstd::prelude::*;
use crate::gate::{lemma_find_at, lemma_find_none};
use crate::http::{
    escape_at, escaped, extension, full_head, header, is_answer, is_inside, is_route, keeping,
    last_name, last_point, leads_to_body, lowered, newest, path_in, reason, tag, type_at,
    unchanged_head, unescaped, Reply, Route, SECURITY_HEADERS,
};
use crate::model::Sample;
use crate::pieces::{is_without, lemma_bare_trimmed};
use crate::text::{find_from, is_space, lemma_find, numeral, split};

verus! {

broadcast use vstd::string::group_string_axioms;

// ---------------------------------------------------------------- paths

/// A text that is put together at a separator comes apart into the parts of both.
pub proof fn lemma_split_joined(a: Seq<char>, b: Seq<char>, c: char)
    ensures
        split(a + seq![c] + b, c) == split(a, c) + split(b, c),
    decreases a.len(),
{
    let s = a + seq![c] + b;
    let i = find_from(a, c, 0);
    lemma_find(a, c, 0);
    if i >= a.len() {
        lemma_absent(a, c, 0);
        assert forall|k: int| 0 <= k < a.len() implies #[trigger] s[k] != c by {
            assert(s[k] == a[k]);
        }
        lemma_find_at(s, c, 0, a.len() as int);
        assert(s.take(a.len() as int) =~= a);
        assert(s.skip(a.len() as int + 1) =~= b);
    } else {
        lemma_absent(a, c, 0);
        assert forall|k: int| 0 <= k < i implies #[trigger] s[k] != c by {
            assert(s[k] == a[k]);
        }
        assert(s[i] == a[i]);
        lemma_find_at(s, c, 0, i);
        let r = a.skip(i + 1);
        lemma_split_joined(r, b, c);
        assert(s.take(i) =~= a.take(i));
        assert(s.skip(i + 1) =~= r + seq![c] + b);
        assert(seq![a.take(i)] + (split(r, c) + split(b, c)) =~= (seq![a.take(i)] + split(r, c))
            + split(b, c));
    }
}

/// What stands before the place where a character is found is not that character.
proof fn lemma_absent(s: Seq<char>, c: char, i: int)
    requires
        0 <= i <= s.len(),
    ensures
        forall|k: int| i <= k < find_from(s, c, i) ==> #[trigger] s[k] != c,
    decreases s.len() - i,
{
    if i < s.len() && s[i] != c {
        lemma_absent(s, c, i + 1);
    }
}

proof fn lemma_split_one(s: Seq<char>, c: char)
    requires
        is_without(s, c),
    ensures
        split(s, c) == seq![s],
{
    lemma_find_none(s, c, 0);
}

proof fn lemma_split_front(s: Seq<char>, c: char)
    ensures
        split(s, c).len() > 0,
        s.len() > 0 && s[0] == c ==> split(s, c)[0] == Seq::<char>::empty(),
{
    lemma_find(s, c, 0);
    if s.len() > 0 && s[0] == c {
        assert(s.take(0) =~= Seq::<char>::empty());
    }
}

/// A path with a step upward in it leads out, wherever in it the step stands; so does one from
/// the root, and one that starts at the directory itself.
pub proof fn lemma_upward(a: Seq<char>, b: Seq<char>)
    ensures
        !is_inside(seq!['.', '.']),
        !is_inside(seq!['.', '.'] + seq!['/'] + b),
        !is_inside(a + seq!['/'] + seq!['.', '.']),
        !is_inside(a + seq!['/'] + (seq!['.', '.'] + seq!['/'] + b)),
        !is_inside(seq!['/'] + b),
        !is_inside(seq!['.']),
        !is_inside(seq!['.'] + seq!['/'] + b),
{
    let here = seq!['.'];
    assert(is_without(here, '/'));
    lemma_split_one(here, '/');
    lemma_split_joined(here, b, '/');
    assert(split(here, '/')[0] == here);
    assert(split(here + seq!['/'] + b, '/')[0] == here);
    let up = seq!['.', '.'];
    assert(is_without(up, '/'));
    lemma_split_one(up, '/');
    assert(split(up, '/')[0] == up);
    lemma_split_joined(up, b, '/');
    assert(split(up + seq!['/'] + b, '/')[0] == up);
    lemma_split_joined(a, up, '/');
    lemma_split_front(a, '/');
    let n = split(a, '/').len() as int;
    assert(split(a + seq!['/'] + up, '/')[n] == up);
    lemma_split_joined(a, up + seq!['/'] + b, '/');
    assert(split(a + seq!['/'] + (up + seq!['/'] + b), '/')[n] == up);
    assert((seq!['/'] + b)[0] == '/');
}

/// Two paths that lead down lead down one after the other.
pub proof fn lemma_downward(a: Seq<char>, b: Seq<char>)
    requires
        is_inside(a),
        is_inside(b),
        a.len() > 0,
    ensures
        is_inside(a + seq!['/'] + b),
{
    let s = a + seq!['/'] + b;
    lemma_split_joined(a, b, '/');
    lemma_split_front(a, '/');
    let x = split(a, '/');
    let y = split(b, '/');
    let z = split(s, '/');
    assert(z[0] == x[0]);
    assert forall|i: int| 0 <= i < z.len() implies #[trigger] z[i] != seq!['.', '.'] by {
        if i < x.len() {
            assert(z[i] == x[i]);
        } else {
            assert(z[i] == y[i - x.len()]);
        }
    }
    assert(s[0] == a[0]);
}

/// A name without a slash that is neither of the two names of directories leads down.
pub proof fn lemma_name_inside(n: Seq<char>)
    requires
        is_without(n, '/'),
        n != seq!['.'],
        n != seq!['.', '.'],
    ensures
        is_inside(n),
{
    lemma_split_one(n, '/');
    if n.len() > 0 {
        assert(n[0] != '/');
    }
}

proof fn lemma_last_point(s: Seq<char>, k: int, n: int)
    requires
        0 <= n < k <= s.len(),
        s[n] == '.',
        forall|i: int| n < i < k ==> #[trigger] s[i] != '.',
    ensures
        last_point(s, k) == n,
    decreases k,
{
    if n < k - 1 {
        lemma_last_point(s, k - 1, n);
    }
}

/// The extension of a path is what stands after the last point of its name, in whatever
/// directory.
pub proof fn lemma_extension(dir: Seq<char>, n: Seq<char>, e: Seq<char>)
    requires
        n.len() > 0,
        is_without(n, '/'),
        is_without(e, '/'),
        is_without(e, '.'),
        n + seq!['.'] + e != seq!['.', '.'],
    ensures
        extension(n + seq!['.'] + e) == Some(e),
        extension(dir + seq!['/'] + (n + seq!['.'] + e)) == Some(e),
{
    let f = n + seq!['.'] + e;
    assert forall|i: int| 0 <= i < f.len() implies #[trigger] f[i] != '/' by {
        if i < n.len() {
            assert(f[i] == n[i]);
        } else if i > n.len() {
            assert(f[i] == e[i - n.len() - 1]);
        }
    }
    assert(is_without(f, '/'));
    lemma_split_one(f, '/');
    assert(f.len() >= 2);
    assert(seq!['.'].len() == 1);
    assert(split(f, '/').last() == f);
    assert(last_name(split(f, '/')) == Some(f));
    assert forall|i: int| n.len() < i < f.len() implies #[trigger] f[i] != '.' by {
        assert(f[i] == e[i - n.len() - 1]);
    }
    lemma_last_point(f, f.len() as int, n.len() as int);
    assert(f.skip(n.len() as int + 1) =~= e);
    let p = dir + seq!['/'] + f;
    lemma_split_joined(dir, f, '/');
    assert(split(p, '/').last() == f);
    assert(last_name(split(p, '/')) == Some(f));
}

/// Whether the content type goes with every path whose name ends so.
pub open spec fn goes_with(dir: Seq<char>, n: Seq<char>, e: Seq<char>, t: Seq<char>) -> bool {
    type_at(n + seq!['.'] + e) == Some(t) && type_at(dir + seq!['/'] + (n + seq!['.'] + e)) == Some(
        t,
    )
}

/// Files are served as what their names end in says they are, and a file of any other ending is
/// not served.
#[verifier::rlimit(60)]
pub proof fn lemma_types(dir: Seq<char>, n: Seq<char>, e: Seq<char>)
    requires
        n.len() > 0,
        is_without(n, '/'),
        is_without(e, '/'),
        is_without(e, '.'),
        n + seq!['.'] + e != seq!['.', '.'],
    ensures
        e == "html"@ ==> goes_with(dir, n, e, "text/html; charset=utf-8"@),
        e == "json"@ ==> goes_with(dir, n, e, "application/json; charset=utf-8"@),
        e == "webmanifest"@ ==> goes_with(dir, n, e, "application/manifest+json"@),
        e == "png"@ ==> goes_with(dir, n, e, "image/png"@),
        e == "ico"@ ==> goes_with(dir, n, e, "image/x-icon"@),
        e == "svg"@ ==> goes_with(dir, n, e, "image/svg+xml"@),
        e == "webp"@ ==> goes_with(dir, n, e, "image/webp"@),
        e == "css"@ ==> goes_with(dir, n, e, "text/css"@),
        e == "js"@ ==> goes_with(dir, n, e, "text/javascript"@),
        e != "html"@ && e != "json"@ && e != "webmanifest"@ && e != "png"@ && e != "ico"@
            && e != "svg"@ && e != "webp"@ && e != "css"@ && e != "js"@ ==> type_at(
            dir + seq!['/'] + (n + seq!['.'] + e),
        ) is None,
{
    lemma_extension(dir, n, e);
    reveal_strlit("html");
    reveal_strlit("json");
    reveal_strlit("webmanifest");
    reveal_strlit("png");
    reveal_strlit("ico");
    reveal_strlit("svg");
    reveal_strlit("webp");
    reveal_strlit("css");
    reveal_strlit("js");
    assert("html"@.len() == 4);
    assert("json"@.len() == 4);
    assert("webmanifest"@.len() == 11);
    assert("png"@.len() == 3);
    assert("ico"@.len() == 3);
    assert("svg"@.len() == 3);
    assert("webp"@.len() == 4);
    assert("css"@.len() == 3);
    assert("js"@.len() == 2);
    assert("html"@[0] != "json"@[0]);
    assert("html"@[0] != "webp"@[0]);
    assert("json"@[0] != "webp"@[0]);
    assert("png"@[0] != "ico"@[0]);
    assert("png"@[0] != "svg"@[0]);
    assert("png"@[0] != "css"@[0]);
    assert("ico"@[0] != "svg"@[0]);
    assert("ico"@[0] != "css"@[0]);
    assert("svg"@[0] != "css"@[0]);
}

// ---------------------------------------------------------------- escapes

/// A byte behind a percent sign, in two digits.
pub open spec fn percent(x: u8) -> Seq<u8> {
    seq![0x25, hex_byte(x / 16), hex_byte(x % 16)]
}

/// A digit of base 16.
pub open spec fn hex_byte(d: u8) -> u8 {
    if d < 10 {
        (0x30 + d) as u8
    } else {
        (0x41 + (d - 10)) as u8
    }
}

/// Bytes, each behind a percent sign.
pub open spec fn percents(b: Seq<u8>) -> Seq<u8>
    decreases b.len(),
{
    if b.len() == 0 {
        seq![]
    } else {
        percent(b[0]) + percents(b.skip(1))
    }
}

proof fn lemma_percent(x: u8)
    ensures
        escaped(percent(x)[1], percent(x)[2]) == Some(x),
{
    let h = x / 16;
    let l = x % 16;
    assert(h < 16 && l < 16 && h * 16 + l == x);
    lemma_hex_byte(h);
    lemma_hex_byte(l);
}

/// A plus sign stands for no digit in front of one; nothing else that is no digit is an escape.
pub proof fn lemma_odd_escapes(d: u8, x: u8)
    requires
        d < 16,
        crate::json::hex_value(x as char) is None,
    ensures
        escaped(0x2b, hex_byte(d)) == Some(d),
        x != 0x2b ==> escaped(x, hex_byte(d)) is None,
        escaped(hex_byte(d), x) is None,
        escaped(0x2b, x) is None,
{
    lemma_hex_byte(d);
    assert(crate::json::hex_value(0x2bu8 as char) is None);
}

proof fn lemma_hex_byte(d: u8)
    requires
        d < 16,
    ensures
        crate::json::hex_value(hex_byte(d) as char) == Some(d as nat),
{
}

proof fn lemma_unescaped_shift(b: Seq<u8>, i: int, n: int)
    requires
        0 <= n <= i,
    ensures
        unescaped(b.skip(n), i - n) == unescaped(b, i) || n > b.len(),
    decreases b.len() - i,
{
    if n <= b.len() && i < b.len() {
        let c = b.skip(n);
        assert(c[i - n] == b[i]);
        if i + 2 < b.len() {
            assert(c[i - n + 1] == b[i + 1]);
            assert(c[i - n + 2] == b[i + 2]);
        }
        assert(escape_at(c, i - n) == escape_at(b, i));
        if escape_at(b, i) {
            lemma_unescaped_shift(b, i + 3, n);
        } else {
            lemma_unescaped_shift(b, i + 1, n);
        }
    }
}

/// Bytes that are written behind percent signs are read back.
pub proof fn lemma_percents(b: Seq<u8>)
    ensures
        unescaped(percents(b), 0) == b,
    decreases b.len(),
{
    let p = percents(b);
    if b.len() > 0 {
        let r = b.skip(1);
        lemma_percents(r);
        lemma_percent(b[0]);
        assert(p.len() >= 3);
        assert(p[0] == 0x25 && p[1] == percent(b[0])[1] && p[2] == percent(b[0])[2]);
        assert(escape_at(p, 0));
        assert(p.skip(3) =~= percents(r));
        lemma_unescaped_shift(p, 3, 3);
        assert(seq![b[0]] + r =~= b);
    }
}

// ---------------------------------------------------------------- requests

/// A header is read in whatever case its name is written, with or without a blank after the
/// colon.
pub proof fn lemma_header(name: Seq<char>, value: Seq<char>)
    requires
        is_without(name, ':'),
        name.len() > 0 ==> !is_space(name[0]) && !is_space(name.last()),
        value.len() > 0 ==> !is_space(value[0]) && !is_space(value.last()),
    ensures
        header(name + seq![':'] + value) == Some((lowered(name), value)),
        header(name + seq![':'] + (seq![' '] + value)) == Some((lowered(name), value)),
        !is_without(name + seq![':'] + value, ':'),
        header(name) is None,
{
    lemma_find_none(name, ':', 0);
    lemma_bare_trimmed(name);
    lemma_bare_trimmed(value);
    let a = name + seq![':'] + value;
    let b = name + seq![':'] + (seq![' '] + value);
    assert forall|k: int| 0 <= k < name.len() implies #[trigger] a[k] != ':' by {
        assert(a[k] == name[k]);
    }
    assert forall|k: int| 0 <= k < name.len() implies #[trigger] b[k] != ':' by {
        assert(b[k] == name[k]);
    }
    lemma_find_at(a, ':', 0, name.len() as int);
    lemma_find_at(b, ':', 0, name.len() as int);
    assert(a.take(name.len() as int) =~= name);
    assert(b.take(name.len() as int) =~= name);
    assert(a.skip(name.len() as int + 1) =~= value);
    assert(b.skip(name.len() as int + 1) =~= seq![' '] + value);
    assert(a[name.len() as int] == ':');
}

/// Two letters are the same in small where they are the same but for their case, and no capital
/// is left.
pub proof fn lemma_lowered(s: Seq<char>, i: int)
    requires
        0 <= i < s.len(),
    ensures
        lowered(s).len() == s.len(),
        lowered(lowered(s)) == lowered(s),
        !('A' <= lowered(s)[i] <= 'Z'),
        !('A' <= s[i] <= 'Z') ==> lowered(s)[i] == s[i],
        'A' <= s[i] <= 'Z' ==> lowered(s)[i] as u32 - 'a' as u32 == s[i] as u32 - 'A' as u32,
{
    let t = lowered(s);
    assert forall|k: int| 0 <= k < s.len() implies #[trigger] t[k] == lowered(t)[k] by {
        if 'A' <= s[k] <= 'Z' {
            assert('a' <= t[k] <= 'z');
        }
    }
    assert(lowered(t) =~= t);
    if 'A' <= s[i] <= 'Z' {
        assert('a' <= t[i] <= 'z');
    }
}

// ---------------------------------------------------------------- routes

/// What follows a question mark makes no difference, nor does whether the head alone is asked
/// for; other methods are turned away whatever they ask for.
pub proof fn lemma_route(r: Route, method: Seq<char>, path: Seq<char>, query: Seq<char>)
    requires
        is_without(path, '?'),
    ensures
        is_route(r, method, path + seq!['?'] + query) == is_route(r, method, path),
        is_route(r, "GET"@, path) == is_route(r, "HEAD"@, path),
        method != "GET"@ && method != "HEAD"@ ==> is_route(r, method, path) == (r is NotAllowed),
{
    let t = path + seq!['?'] + query;
    lemma_find_none(path, '?', 0);
    assert forall|k: int| 0 <= k < path.len() implies #[trigger] t[k] != '?' by {
        assert(t[k] == path[k]);
    }
    lemma_find_at(t, '?', 0, path.len() as int);
    assert(path_in(t) =~= path);
    assert(path_in(path) =~= path);
}

/// The statistics and the snapshot are served under two names each, and the page under the
/// directory's name and its own; under these names nothing else is.
#[verifier::rlimit(60)]
pub proof fn lemma_names(r: Route, head: bool)
    ensures
        ({
            let m = if head {
                "HEAD"@
            } else {
                "GET"@
            };
            &&& is_route(r, m, "/"@) == (r is Page)
            &&& is_route(r, m, "/index.html"@) == (r is Page)
            &&& is_route(r, m, "/stats.json"@) == (r is Stats)
            &&& is_route(r, m, "/api/stats"@) == (r is Stats)
            &&& is_route(r, m, "/status.json"@) == (r is Status)
            &&& is_route(r, m, "/api/status"@) == (r is Status)
        }),
{
    reveal_strlit("/");
    reveal_strlit("/index.html");
    reveal_strlit("/stats.json");
    reveal_strlit("/api/stats");
    reveal_strlit("/status.json");
    reveal_strlit("/api/status");
    assert("/"@.len() == 1);
    assert("/index.html"@.len() == 11);
    assert("/stats.json"@.len() == 11);
    assert("/api/stats"@.len() == 10);
    assert("/status.json"@.len() == 12);
    assert("/api/status"@.len() == 11);
    assert("/index.html"@[1] != "/stats.json"@[1]);
    assert("/index.html"@[1] != "/api/status"@[1]);
    assert("/stats.json"@[1] != "/api/status"@[1]);
    reveal_strlit("GET");
    reveal_strlit("HEAD");
    assert("GET"@.len() == 3 && "HEAD"@.len() == 4);
    assert(is_without("/"@, '?'));
    lemma_find_none("/"@, '?', 0);
    assert(path_in("/"@) =~= "/"@);
    assert(is_without("/index.html"@, '?'));
    lemma_find_none("/index.html"@, '?', 0);
    assert(path_in("/index.html"@) =~= "/index.html"@);
    assert(is_without("/stats.json"@, '?'));
    lemma_find_none("/stats.json"@, '?', 0);
    assert(path_in("/stats.json"@) =~= "/stats.json"@);
    assert(is_without("/api/stats"@, '?'));
    lemma_find_none("/api/stats"@, '?', 0);
    assert(path_in("/api/stats"@) =~= "/api/stats"@);
    assert(is_without("/status.json"@, '?'));
    lemma_find_none("/status.json"@, '?', 0);
    assert(path_in("/status.json"@) =~= "/status.json"@);
    assert(is_without("/api/status"@, '?'));
    lemma_find_none("/api/status"@, '?', 0);
    assert(path_in("/api/status"@) =~= "/api/status"@);
}

// ---------------------------------------------------------------- answers

/// Whether the head of an answer has the line `key: value` after its first.
pub open spec fn tells(head: Seq<char>, key: Seq<char>, value: Seq<char>) -> bool {
    exists|x: Seq<char>, y: Seq<char>|
        head == #[trigger] (x + "\r\n"@ + key + ": "@ + value + "\r\n"@ + y)
}

/// Whether an answer has that code.
pub open spec fn has_code(head: Seq<char>, code: nat) -> bool {
    exists|y: Seq<char>| head == #[trigger] ("HTTP/1.1 "@ + numeral(code) + " "@ + y)
}

/// Whether the head of an answer ends where heads end, with every header that makes the page
/// safe before that.
pub open spec fn ends_well(head: Seq<char>) -> bool {
    exists|x: Seq<char>, y: Seq<char>|
        head == #[trigger] (x + "\r\n"@ + SECURITY_HEADERS@ + y + "\r\n"@) && (y.len() == 0
            || y == "Connection: close\r\n"@)
}

proof fn lemma_tells(x: Seq<char>, key: Seq<char>, value: Seq<char>, y: Seq<char>)
    ensures
        tells(x + "\r\n"@ + key + ": "@ + value + "\r\n"@ + y, key, value),
{
}

#[verifier::rlimit(40)]
proof fn lemma_full_head(code: u16, ct: Seq<char>, len: nat, t: Option<Seq<char>>)
    ensures
        ({
            let h = full_head(code, ct, len, t);
            &&& has_code(h, code as nat)
            &&& tells(h, "Content-Type"@, ct)
            &&& tells(h, "Content-Length"@, numeral(len))
            &&& t is Some ==> tells(h, "ETag"@, t->0) && tells(h, "Cache-Control"@, "no-cache"@)
            &&& t is None ==> tells(h, "Cache-Control"@, "no-store"@)
            &&& ends_well(h)
        }),
{
    let h = full_head(code, ct, len, t);
    reveal_strlit("HTTP/1.1 ");
    reveal_strlit(" ");
    reveal_strlit("\r\n");
    reveal_strlit(": ");
    reveal_strlit("\r\nContent-Type: ");
    reveal_strlit("Content-Type");
    reveal_strlit("\r\nContent-Length: ");
    reveal_strlit("Content-Length");
    reveal_strlit("ETag: ");
    reveal_strlit("ETag");
    reveal_strlit("\r\nCache-Control: no-cache\r\n");
    reveal_strlit("Cache-Control: no-store\r\n");
    reveal_strlit("Cache-Control");
    reveal_strlit("no-cache");
    reveal_strlit("no-store");
    reveal_strlit("Connection: close\r\n\r\n");
    reveal_strlit("Connection: close\r\n");
    let nl = "\r\n"@;
    let c = ": "@;
    let safe = SECURITY_HEADERS@;
    let first = "HTTP/1.1 "@ + numeral(code as nat) + " "@ + reason(code);
    let end = "Connection: close\r\n\r\n"@;
    let rest = keeping(t) + safe + end;
    let sized = "Content-Length: "@ + numeral(len) + nl + rest;
    reveal_strlit("Content-Length: ");
    assert("\r\nContent-Type: "@ =~= nl + "Content-Type"@ + c);
    assert("\r\nContent-Length: "@ =~= nl + "Content-Length"@ + c);
    assert("\r\nContent-Length: "@ =~= nl + "Content-Length: "@);
    let y = reason(code) + nl + "Content-Type"@ + c + ct + nl + sized;
    assert(h =~= "HTTP/1.1 "@ + numeral(code as nat) + " "@ + y);
    lemma_tells(first, "Content-Type"@, ct, sized);
    assert(h =~= first + nl + "Content-Type"@ + c + ct + nl + sized);
    let typed = first + nl + "Content-Type"@ + c + ct;
    lemma_tells(typed, "Content-Length"@, numeral(len), rest);
    assert(h =~= typed + nl + "Content-Length"@ + c + numeral(len) + nl + rest);
    let measured = typed + nl + "Content-Length"@ + c + numeral(len);
    assert(end =~= "Connection: close\r\n"@ + nl);
    match t {
        Some(v) => {
            assert("ETag: "@ =~= "ETag"@ + c);
            assert("\r\nCache-Control: no-cache\r\n"@ =~= nl + "Cache-Control"@ + c
                + "no-cache"@ + nl);
            let kept = "Cache-Control"@ + c + "no-cache"@ + nl + safe + end;
            lemma_tells(measured, "ETag"@, v, kept);
            assert(h =~= measured + nl + "ETag"@ + c + v + nl + kept);
            let named = measured + nl + "ETag"@ + c + v;
            lemma_tells(named, "Cache-Control"@, "no-cache"@, safe + end);
            assert(h =~= named + nl + "Cache-Control"@ + c + "no-cache"@ + nl + (safe + end));
            let x = named + nl + "Cache-Control"@ + c + "no-cache"@;
            assert(h =~= x + nl + safe + "Connection: close\r\n"@ + nl);
        },
        None => {
            assert("Cache-Control: no-store\r\n"@ =~= "Cache-Control"@ + c + "no-store"@ + nl);
            lemma_tells(measured, "Cache-Control"@, "no-store"@, safe + end);
            assert(h =~= measured + nl + "Cache-Control"@ + c + "no-store"@ + nl + (safe + end));
            let x = measured + nl + "Cache-Control"@ + c + "no-store"@;
            assert(h =~= x + nl + safe + "Connection: close\r\n"@ + nl);
        },
    }
}

/// What was found is sent whole, with its length, its type and its tag, and viewers are told to
/// ask again each time; the head alone is sent where it alone is asked for.
#[verifier::rlimit(60)]
pub proof fn lemma_found(
    r: Reply,
    route: Route,
    body: Seq<u8>,
    inm: Option<Seq<char>>,
    head: bool,
)
    requires
        is_answer(Some(r), route, Some(body), inm, head),
        leads_to_body(route),
        inm != Some(tag(body)),
    ensures
        has_code(r.head@, 200),
        tells(r.head@, "Content-Length"@, numeral(body.len())),
        tells(r.head@, "ETag"@, tag(body)),
        tells(r.head@, "Cache-Control"@, "no-cache"@),
        route is Page ==> tells(r.head@, "Content-Type"@, "text/html; charset=utf-8"@),
        route is Stats || route is Status ==> tells(
            r.head@,
            "Content-Type"@,
            "application/json; charset=utf-8"@,
        ),
        route is File ==> tells(r.head@, "Content-Type"@, route->File_1@),
        ends_well(r.head@),
        !head ==> r.body@ == body,
        head ==> r.body@.len() == 0,
{
    let t = Some(tag(body));
    lemma_full_head(200, "text/html; charset=utf-8"@, body.len(), t);
    lemma_full_head(200, "application/json; charset=utf-8"@, body.len(), t);
    if route is File {
        lemma_full_head(200, route->File_1@, body.len(), t);
    }
}

/// What cannot be served is answered with a line of text that says so, of a length that is told
/// and that nobody is to keep.
#[verifier::rlimit(60)]
pub proof fn lemma_refused(
    r: Reply,
    route: Route,
    body: Option<Seq<u8>>,
    inm: Option<Seq<char>>,
    head: bool,
)
    requires
        is_answer(Some(r), route, body, inm, head),
        !leads_to_body(route) || body is None,
    ensures
        route is NotAllowed ==> has_code(r.head@, 405),
        route is NotFound || route is File ==> has_code(r.head@, 404),
        route is Page ==> has_code(r.head@, 500),
        route is NotAllowed || route is NotFound || route is File || route is Page,
        tells(r.head@, "Content-Type"@, "text/plain; charset=utf-8"@),
        tells(r.head@, "Cache-Control"@, "no-store"@),
        !head ==> tells(r.head@, "Content-Length"@, numeral(r.body@.len())) && r.body@.len() > 0,
        ends_well(r.head@),
{
    let ct = "text/plain; charset=utf-8"@;
    let a = vstd::utf8::encode_utf8("method not allowed"@);
    let b = vstd::utf8::encode_utf8("not found"@);
    let c = vstd::utf8::encode_utf8("web/index.html missing"@);
    reveal_strlit("method not allowed");
    reveal_strlit("not found");
    reveal_strlit("web/index.html missing");
    lemma_some_bytes("method not allowed"@);
    lemma_some_bytes("not found"@);
    lemma_some_bytes("web/index.html missing"@);
    lemma_full_head(405, ct, a.len(), None);
    lemma_full_head(404, ct, b.len(), None);
    lemma_full_head(500, ct, c.len(), None);
}

proof fn lemma_some_bytes(s: Seq<char>)
    requires
        s.len() > 0,
    ensures
        vstd::utf8::encode_utf8(s).len() > 0,
{
    reveal_with_fuel(vstd::utf8::encode_utf8, 2);
}

/// Whoever asks for the head alone gets the head that goes with the body.
pub proof fn lemma_heads_agree(
    a: Reply,
    b: Reply,
    route: Route,
    body: Option<Seq<u8>>,
    inm: Option<Seq<char>>,
)
    requires
        is_answer(Some(a), route, body, inm, true),
        is_answer(Some(b), route, body, inm, false),
    ensures
        a.head@ == b.head@,
        a.body@.len() == 0,
{
}

/// A viewer that has the body already is told so, with the tag by which it can ask again.
#[verifier::rlimit(40)]
pub proof fn lemma_unchanged(r: Reply, route: Route, body: Seq<u8>, head: bool)
    requires
        is_answer(Some(r), route, Some(body), Some(tag(body)), head),
        leads_to_body(route),
    ensures
        has_code(r.head@, 304),
        tells(r.head@, "ETag"@, tag(body)),
        tells(r.head@, "Cache-Control"@, "no-cache"@),
        ends_well(r.head@),
        r.body@.len() == 0,
{
    let h = unchanged_head(tag(body));
    let t = tag(body);
    reveal_strlit("HTTP/1.1 ");
    reveal_strlit(" ");
    reveal_strlit("\r\n");
    reveal_strlit(": ");
    reveal_strlit("HTTP/1.1 304 Not Modified\r\nETag: ");
    reveal_strlit("HTTP/1.1 304 Not Modified");
    reveal_strlit("Not Modified\r\nETag: ");
    reveal_strlit("ETag");
    reveal_strlit("\r\nCache-Control: no-cache\r\n");
    reveal_strlit("Cache-Control");
    reveal_strlit("no-cache");
    reveal_with_fuel(numeral, 4);
    assert(numeral(304) =~= seq!['3', '0', '4']);
    let nl = "\r\n"@;
    let c = ": "@;
    let safe = SECURITY_HEADERS@;
    let first = "HTTP/1.1 304 Not Modified"@;
    assert("HTTP/1.1 304 Not Modified\r\nETag: "@ =~= first + nl + "ETag"@ + c);
    assert("HTTP/1.1 304 Not Modified\r\nETag: "@ =~= "HTTP/1.1 "@ + numeral(304) + " "@
        + "Not Modified\r\nETag: "@);
    assert("\r\nCache-Control: no-cache\r\n"@ =~= nl + "Cache-Control"@ + c + "no-cache"@ + nl);
    let y = "Not Modified\r\nETag: "@ + t + "\r\nCache-Control: no-cache\r\n"@ + safe + nl;
    assert(h =~= "HTTP/1.1 "@ + numeral(304) + " "@ + y);
    let kept = "Cache-Control"@ + c + "no-cache"@ + nl + safe + nl;
    lemma_tells(first, "ETag"@, t, kept);
    assert(h =~= first + nl + "ETag"@ + c + t + nl + kept);
    let named = first + nl + "ETag"@ + c + t;
    lemma_tells(named, "Cache-Control"@, "no-cache"@, safe + nl);
    assert(h =~= named + nl + "Cache-Control"@ + c + "no-cache"@ + nl + (safe + nl));
    let x = named + nl + "Cache-Control"@ + c + "no-cache"@;
    let none = Seq::<char>::empty();
    assert(h =~= x + nl + safe + none + nl);
}

/// The stamp of a snapshot is the time of the sample that came last.
pub proof fn lemma_newest(samples: Seq<(Seq<char>, Sample)>, k: int, i: int)
    requires
        0 <= i < k <= samples.len(),
    ensures
        samples[i].1.ts <= newest(samples, k),
        exists|j: int| 0 <= j < k && (#[trigger] samples[j]).1.ts == newest(samples, k),
    decreases k,
{
    if k > 1 {
        if i < k - 1 {
            lemma_newest(samples, k - 1, i);
        } else {
            lemma_newest(samples, k - 1, 0);
        }
        if samples[k - 1].1.ts <= newest(samples, k - 1) {
            let j = choose|j: int|
                0 <= j < k - 1 && (#[trigger] samples[j]).1.ts == newest(samples, k - 1);
            assert(samples[j].1.ts == newest(samples, k));
        } else {
            assert(samples[k - 1].1.ts == newest(samples, k));
        }
    } else {
        assert(newest(samples, 0) == 0);
        assert(samples[0].1.ts == newest(samples, 1));
    }
}

} // verus!
