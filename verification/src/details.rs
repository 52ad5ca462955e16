//! What remains to be said of names, limits and messages.

use vstd::prelude::*;
use crate::cli::{defaults, rate_text};
use crate::collect::{secs_of, Collector};
use crate::db::Db;
use crate::double::{lemma_whole_exact, one, truncated, whole, Double};
use crate::gate::{in_order, is_within, peak_over, within_span, Gate};
use crate::http::{full_head, Server};
use crate::model::{pinned_message, Gpu};
use crate::power::{is_day_text, Append, PowerLog};
use crate::summarizer::{slashes, Summarizer};
use crate::summary::{digest_of, servers_of, without_mark};
use crate::table::put;
use crate::text::numeral;
use crate::json::{text_member, Json};

verus! {

broadcast use vstd::string::group_string_axioms;

// ---------------------------------------------------------------- answers

/// The first line of an answer has the code and what the code means.
pub proof fn lemma_status_line(ct: Seq<char>, len: nat, tag: Option<Seq<char>>)
    ensures
        ("HTTP/1.1 "@ + numeral(200) + " OK\r\n"@).is_prefix_of(full_head(200, ct, len, tag)),
        ("HTTP/1.1 "@ + numeral(404) + " Not Found\r\n"@).is_prefix_of(
            full_head(404, ct, len, tag),
        ),
        ("HTTP/1.1 "@ + numeral(405) + " Method Not Allowed\r\n"@).is_prefix_of(
            full_head(405, ct, len, tag),
        ),
        ("HTTP/1.1 "@ + numeral(500) + " Internal Server Error\r\n"@).is_prefix_of(
            full_head(500, ct, len, tag),
        ),
{
    reveal_strlit(" ");
    reveal_strlit("OK");
    reveal_strlit(" OK\r\n");
    reveal_strlit("Not Found");
    reveal_strlit(" Not Found\r\n");
    reveal_strlit("Method Not Allowed");
    reveal_strlit(" Method Not Allowed\r\n");
    reveal_strlit("Internal Server Error");
    reveal_strlit(" Internal Server Error\r\n");
    reveal_strlit("\r\n");
    assert(" OK\r\n"@ =~= " "@ + "OK"@ + "\r\n"@);
    assert(" Not Found\r\n"@ =~= " "@ + "Not Found"@ + "\r\n"@);
    assert(" Method Not Allowed\r\n"@ =~= " "@ + "Method Not Allowed"@ + "\r\n"@);
    assert(" Internal Server Error\r\n"@ =~= " "@ + "Internal Server Error"@ + "\r\n"@);
    lemma_status(200, "OK"@, " OK\r\n"@, ct, len, tag);
    lemma_status(404, "Not Found"@, " Not Found\r\n"@, ct, len, tag);
    lemma_status(405, "Method Not Allowed"@, " Method Not Allowed\r\n"@, ct, len, tag);
    lemma_status(500, "Internal Server Error"@, " Internal Server Error\r\n"@, ct, len, tag);
}

proof fn lemma_status(
    code: u16,
    why: Seq<char>,
    end: Seq<char>,
    ct: Seq<char>,
    len: nat,
    tag: Option<Seq<char>>,
)
    requires
        crate::http::reason(code) == why,
        end == " "@ + why + "\r\n"@,
    ensures
        ("HTTP/1.1 "@ + numeral(code as nat) + end).is_prefix_of(full_head(code, ct, len, tag)),
{
    reveal_strlit("\r\n");
    reveal_strlit("\r\nContent-Type: ");
    reveal_strlit("Content-Type: ");
    assert("\r\nContent-Type: "@ =~= "\r\n"@ + "Content-Type: "@);
    let p = "HTTP/1.1 "@ + numeral(code as nat) + end;
    let rest = "Content-Type: "@ + ct + "\r\nContent-Length: "@ + numeral(len) + "\r\n"@
        + crate::http::keeping(tag) + crate::http::SECURITY_HEADERS@ + "Connection: close\r\n\r\n"@;
    let h = full_head(code, ct, len, tag);
    assert(h =~= p + rest);
    assert(p =~= h.subrange(0, p.len() as int));
}

proof fn lemma_hash_front(a: Seq<u8>, x: u8, n: int)
    requires
        0 <= n <= a.len(),
    ensures
        crate::http::hash(a.push(x), n) == crate::http::hash(a, n),
    decreases n,
{
    if n > 0 {
        lemma_hash_front(a, x, n - 1);
        assert(a.push(x)[n - 1] == a[n - 1]);
    }
}

/// The hash of no bytes is the basis of FNV-1a, and each byte more is put in by its prime.
pub proof fn lemma_hash_grows(a: &[u8], b: &[u8], x: u8, r: u64, s: u64)
    requires
        call_ensures(crate::http::fnv1a, (a,), r),
        call_ensures(crate::http::fnv1a, (b,), s),
        b@ == a@.push(x),
    ensures
        a@.len() == 0 ==> r == 0xcbf2_9ce4_8422_2325,
        s == ((r ^ (x as u64)) * 0x100_0000_01b3) % 0x1_0000_0000_0000_0000,
{
    lemma_hash_front(a@, x, a@.len() as int);
    assert(b@[a@.len() as int] == x);
}

/// Statistics are written again once a minute has passed since they were kept, and not before;
/// where none are kept, at once. What is sent in between is what was kept.
pub proof fn lemma_stats_kept(
    s: &mut Server,
    now: u32,
    body: &str,
    later: u32,
    due: bool,
    r: Vec<u8>,
)
    requires
        call_ensures(Server::keep_stats, (s, now, body), ()),
        call_ensures(Server::stats_due, (&*final(s), later), due),
        call_ensures(Server::stats_body, (&*final(s),), r),
        vstd::utf8::encode_utf8(body@).len() > 0,
    ensures
        due <==> later >= now + 60,
        r@ == vstd::utf8::encode_utf8(body@),
        final(s).cache == old(s).cache,
        final(s).public == old(s).public,
{
}

/// While no newer sample comes, the snapshot that was sent is sent again, with its tag.
pub proof fn lemma_cached(s: &mut Server, c: &Collector, r: (Vec<u8>, String))
    requires
        old(s).wf(),
        call_ensures(Server::status_body, (s, c), r),
        old(s).cache.body@.len() > 0,
        old(s).cache.stamp == crate::http::newest(c.samples@, c.samples@.len() as int),
    ensures
        r.0@ == old(s).cache.body@,
        r.1@ == crate::http::tag(r.0@),
        final(s).cache == old(s).cache,
{
}

// ---------------------------------------------------------------- the log of the power

/// The log goes by the local day: its rows are for the file of that day, and the file is named
/// for it and opened first just where another day's is open.
pub proof fn lemma_log_file(
    p: &mut PowerLog,
    name: &str,
    watts: Double,
    gpus: &[Gpu],
    secs: i64,
    offset: i64,
    ts: u64,
    a: Append,
)
    requires
        call_ensures(PowerLog::record, (p, name, watts, gpus, secs, offset, ts), Some(a)),
        i64::MIN <= secs + offset <= i64::MAX,
    ensures
        is_day_text(a.day@, (secs + offset) / 86_400),
        a.file is Some <==> a.day@ != old(p).day@,
        a.file is Some ==> a.file->0@ == "power-"@ + a.day@ + ".csv"@,
        a.rows@ == crate::power::log_rows(ts, name@, gpus@, gpus@.len() as int),
{
    assert(secs.wrapping_add(offset) == secs + offset);
}

/// Times are kept in whole seconds.
pub proof fn lemma_seconds(n: nat)
    requires
        n < 0x20_0000_0000_0000,
    ensures
        secs_of(whole(n as int)) == n,
{
    lemma_whole_exact(n);
    vstd::arithmetic::power2::lemma_pow2_pos(1074);
    let u = one() as int;
    let k = n as int;
    assert((k * u) / u == k) by {
        vstd::arithmetic::div_mod::lemma_div_multiples_vanish(k, u);
        vstd::arithmetic::mul::lemma_mul_is_commutative(k, u);
    }
    assert(truncated(whole(k)) == k);
}

// ---------------------------------------------------------------- limits

/// A history keeps two points at least, a store writes a row a second at most, and an answer is
/// waited for for a second at least; more is taken as it is asked for.
pub proof fn lemma_least(
    points: usize,
    enabled: bool,
    p: PowerLog,
    dir: String,
    period: u32,
    db: Db,
    s: &mut Summarizer,
    secs: u32,
)
    requires
        call_ensures(PowerLog::new, (points, enabled), p),
        call_ensures(Db::open, (dir, period), db),
        call_ensures(Summarizer::set_timeout, (s, secs), ()),
    ensures
        p.points >= 2,
        points >= 2 ==> p.points == points,
        p.enabled == enabled,
        db.period >= 1,
        period >= 1 ==> db.period == period,
        db.dir == dir,
        final(s).timeout >= 1,
        secs >= 1 ==> final(s).timeout == secs,
        final(s).prompt == old(s).prompt,
{
}

/// Where no argument says otherwise, the page is served on port 8899 of this machine alone, a
/// round is made every two seconds, the statistics every minute and a summary every five; nothing
/// is published or uploaded, and nothing is only checked.
pub proof fn lemma_defaults(config: Seq<char>, web: Seq<char>)
    ensures
        ({
            let d = defaults(config, web);
            &&& d.config == config && d.web == web
            &&& d.port == 8899 && d.bind == "127.0.0.1"@
            &&& d.interval == 2 && d.stats_interval == 60 && d.summary_interval == 300
            &&& d.publish is None && d.upload_cmd is None && d.upload_cmd_tick is None
            &&& d.upload_cmd_stats is None && d.upload_cmd_summary is None
            &&& d.summary_key is None && d.summary_once is None && d.summary_prompt is None
            &&& !d.check && !d.once && !d.rate && !d.loop_
        }),
{
}

// ---------------------------------------------------------------- texts

/// A path with forward slashes is the path but for its backslashes, each of which is a forward
/// slash.
pub proof fn lemma_forward(s: Seq<char>, i: int)
    requires
        0 <= i < s.len(),
    ensures
        slashes(s).len() == s.len(),
        s[i] == '\\' ==> slashes(s)[i] == '/',
        s[i] != '\\' ==> slashes(s)[i] == s[i],
{
}

/// A byte-order mark before a snapshot makes no difference.
pub proof fn lemma_mark(s: Seq<char>, trend: Option<(Double, u32)>)
    ensures
        digest_of(seq!['\u{feff}'] + s, trend) == digest_of(s, trend),
        servers_of(seq!['\u{feff}'] + s) == servers_of(s),
        s.len() > 0 && s[0] != '\u{feff}' ==> without_mark(s) == s,
{
    let t = seq!['\u{feff}'] + s;
    assert(t[0] == '\u{feff}');
    assert(t.skip(1) =~= s);
    assert(without_mark(t) == without_mark(s));
}

/// What is wrong with a pinned address is said with the name of the server first and its note
/// last.
pub proof fn lemma_pinned_message(j: Json)
    ensures
        (text_member(j, "name"@, ""@) + ": host "@).is_prefix_of(pinned_message(j)),
        text_member(j, "note"@, ""@).is_suffix_of(pinned_message(j)),
{
    let m = pinned_message(j);
    let p = text_member(j, "name"@, ""@) + ": host "@;
    let n = text_member(j, "note"@, ""@);
    assert(p =~= m.subrange(0, p.len() as int));
    assert(n =~= m.subrange(m.len() - n.len(), m.len() as int));
}

// ---------------------------------------------------------------- the report on the rate

/// The stamps that are so recent.
pub open spec fn recent(t: Double, span: Double) -> spec_fn(Double) -> bool {
    |x: Double| is_within(t, x, span)
}

/// The connections of a span are those stamps that lie in it.
pub proof fn lemma_within_span(h: Seq<Double>, t: Double, span: Double, k: int)
    requires
        0 <= k <= h.len(),
    ensures
        within_span(h, t, span, k) == h.take(k).filter(recent(t, span)),
    decreases k,
{
    reveal(Seq::filter);
    if k > 0 {
        lemma_within_span(h, t, span, k - 1);
        assert(h.take(k).drop_last() =~= h.take(k - 1));
        assert(h.take(k).last() == h[k - 1]);
    } else {
        assert(h.take(0).filter(recent(t, span)) =~= seq![]);
    }
}

/// The report ends with how many connections there were in the last second, the last ten and the
/// last sixty, and with the most in any second.
pub proof fn lemma_rate_counts(g: Gate, file: Seq<char>, h: Seq<Double>, t: Double)
    ensures
        ({
            let n = h.len() as int;
            let end = "recent history\n  last 1s / 10s / 60s : "@ + numeral(
                h.filter(recent(t, whole(1))).len(),
            ) + " / "@ + numeral(h.filter(recent(t, whole(10))).len()) + " / "@ + numeral(
                h.filter(recent(t, whole(60))).len(),
            ) + "\n  peak in any 1s      : "@ + numeral(peak_over(in_order(h), n).0 as nat);
            end.is_suffix_of(rate_text(g, file, h, t))
        }),
{
    let n = h.len() as int;
    lemma_within_span(h, t, whole(1), n);
    lemma_within_span(h, t, whole(10), n);
    lemma_within_span(h, t, whole(60), n);
    assert(h.take(n) =~= h);
    reveal_strlit("x below the campus limit\nrecent history\n  last 1s / 10s / 60s : ");
    reveal_strlit("x below the campus limit\n");
    reveal_strlit("recent history\n  last 1s / 10s / 60s : ");
    let lead = "x below the campus limit\n"@;
    let head = "recent history\n  last 1s / 10s / 60s : "@;
    assert("x below the campus limit\nrecent history\n  last 1s / 10s / 60s : "@ =~= lead + head);
    let a = numeral(h.filter(recent(t, whole(1))).len());
    let b = numeral(h.filter(recent(t, whole(10))).len());
    let c = numeral(h.filter(recent(t, whole(60))).len());
    let d = numeral(peak_over(in_order(h), n).0 as nat);
    let s = " / "@;
    let p = "\n  peak in any 1s      : "@;
    let r = rate_text(g, file, h, t);
    let len = (head + a + s + b + s + c + p + d).len();
    let front = r.take(r.len() - len);
    lemma_ends(front, r, lead, head, a, s, b, c, p, d);
}

proof fn lemma_ends(
    front: Seq<char>,
    r: Seq<char>,
    lead: Seq<char>,
    head: Seq<char>,
    a: Seq<char>,
    s: Seq<char>,
    b: Seq<char>,
    c: Seq<char>,
    p: Seq<char>,
    d: Seq<char>,
)
    requires
        exists|x: Seq<char>| r == #[trigger] (x + (lead + head)) + a + s + b + s + c + p + d,
    ensures
        (head + a + s + b + s + c + p + d).is_suffix_of(r),
{
    let x = choose|x: Seq<char>| r == #[trigger] (x + (lead + head)) + a + s + b + s + c + p + d;
    let e = head + a + s + b + s + c + p + d;
    assert(r =~= (x + lead) + e);
    assert(e =~= r.subrange(r.len() - e.len(), r.len() as int));
}

} // verus!
