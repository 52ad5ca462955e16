//! What the collector keeps of the streams.

use vstd::prelude::*;
use crate::block::{card_of, cards_of};
use crate::collect::{
    buffered, delay_after, expanded, gpus_of, is_committed, is_telling, last_telling,
    procs_of_index, ssh_args, wedged, wedged_names,
};
use crate::double::Double;
use crate::model::{Config, Gpu, Host, Sample, Server, Status};
use crate::power::last_of;
use crate::table::{lookup, ordered};
use crate::text::{before, holds_from, is_space, numeral, space_end, space_start, starts, trimmed};

verus! {

// ---------------------------------------------------------------- the window

/// The newest point is at the end of a window, the points before it stand as they stood before
/// it came, and none is dropped but the oldest, and those only to keep to the number of points.
pub proof fn lemma_window(w: Seq<Double>, x: Double, points: nat)
    requires
        points > 0,
    ensures
        ({
            let r = last_of(w.push(x), points);
            &&& 0 < r.len() <= points
            &&& r.len() <= w.len() + 1
            &&& r.len() < points ==> r.len() == w.len() + 1
            &&& r.last() == x
            &&& forall|k: int|
                1 <= k < r.len() ==> r[r.len() - 1 - k] == #[trigger] w[w.len() - k]
        }),
{
}

/// The points that came in one after the other.
pub open spec fn window_after(xs: Seq<Double>, points: nat) -> Seq<Double>
    decreases xs.len(),
{
    if xs.len() == 0 {
        seq![]
    } else {
        last_of(window_after(xs.drop_last(), points).push(xs.last()), points)
    }
}

/// A window holds the points that came last, in the order in which they came, and all of them
/// while they fit.
pub proof fn lemma_window_holds_last(xs: Seq<Double>, points: nat)
    requires
        points > 0,
    ensures
        window_after(xs, points).len() == if xs.len() < points {
            xs.len()
        } else {
            points
        },
        window_after(xs, points).is_suffix_of(xs),
    decreases xs.len(),
{
    if xs.len() > 0 {
        let a = xs.drop_last();
        lemma_window_holds_last(a, points);
        let w = window_after(a, points);
        let r = window_after(xs, points);
        assert(w =~= a.subrange(a.len() - w.len(), a.len() as int));
        assert forall|i: int| 0 <= i < r.len() implies r[i] == xs[xs.len() - r.len() + i] by {
            if i < r.len() - 1 {
                let k = if w.len() + 1 > points {
                    w.len() + 1 - points
                } else {
                    0
                };
                assert(r[i] == w[i + k]);
                assert(w[i + k] == a[a.len() - w.len() + i + k]);
            }
        }
        assert(r =~= xs.subrange(xs.len() - r.len(), xs.len() as int));
    }
}

// ---------------------------------------------------------------- stalls and retries

/// A stream that delivers is never at fault for a minute, and always is after that; so is one
/// that was started and never delivered. When a stream was started does not matter once it has
/// delivered, nor does the hour on the clock.
pub proof fn lemma_silence(status: Status, ts: u64, at: Option<u64>, now: u64, later: u64, k: u64)
    ensures
        status == Status::Up && now <= ts + 60 ==> !wedged(status, ts, at, now),
        status == Status::Up && 0 < ts && ts + 60 < now ==> wedged(status, ts, at, now),
        status == Status::Up ==> wedged(status, ts, at, now) == wedged(status, ts, None, now),
        status == Status::Pending && at is Some && now <= at->0 + 60 ==> !wedged(
            status,
            ts,
            at,
            now,
        ),
        status == Status::Pending && at is Some && at->0 + 60 < now ==> wedged(
            status,
            ts,
            at,
            now,
        ),
        status == Status::Pending && at is None ==> !wedged(status, ts, at, now),
        status == Status::Pending ==> wedged(status, ts, at, now) == wedged(status, 0, at, now),
        status != Status::Up && status != Status::Pending ==> !wedged(status, ts, at, now),
        now <= later && wedged(status, ts, at, now) ==> wedged(status, ts, at, later),
        ts > 0 && ts + k <= u64::MAX && now + k <= u64::MAX ==> (wedged(status, ts, None, now)
            == wedged(status, (ts + k) as u64, None, (now + k) as u64)),
{
}

/// The streams that are stuck are those of the servers in the table that are at fault, each
/// named once and in the order of the names.
#[verifier::rlimit(40)]
pub proof fn lemma_stuck(
    samples: Seq<(Seq<char>, Sample)>,
    spawned: Seq<(Seq<char>, u64)>,
    now: u64,
    k: int,
)
    requires
        0 <= k <= samples.len(),
        ordered(samples),
    ensures
        ({
            let r = wedged_names(samples, spawned, now, k);
            &&& forall|n: Seq<char>| #[trigger]
                r.contains(n) <==> exists|i: int|
                    0 <= i < k && (#[trigger] samples[i]).0 == n && wedged(
                        samples[i].1.status,
                        samples[i].1.ts,
                        lookup(spawned, n),
                        now,
                    )
            &&& forall|i: int, j: int|
                0 <= i < j < r.len() ==> before(#[trigger] r[i], #[trigger] r[j])
        }),
    decreases k,
{
    let r = wedged_names(samples, spawned, now, k);
    if k > 0 {
        lemma_stuck(samples, spawned, now, k - 1);
        let rest = wedged_names(samples, spawned, now, k - 1);
        let (m, d) = samples[k - 1];
        assert forall|n: Seq<char>| #[trigger] r.contains(n) <==> exists|i: int|
            0 <= i < k && (#[trigger] samples[i]).0 == n && wedged(
                samples[i].1.status,
                samples[i].1.ts,
                lookup(spawned, n),
                now,
            ) by {
            if r.contains(n) {
                let p = choose|p: int| 0 <= p < r.len() && r[p] == n;
                if p < rest.len() {
                    assert(rest[p] == n);
                    assert(rest.contains(n));
                } else {
                    assert(samples[k - 1].0 == n);
                }
            }
            if exists|i: int|
                0 <= i < k && (#[trigger] samples[i]).0 == n && wedged(
                    samples[i].1.status,
                    samples[i].1.ts,
                    lookup(spawned, n),
                    now,
                ) {
                let i = choose|i: int|
                    0 <= i < k && (#[trigger] samples[i]).0 == n && wedged(
                        samples[i].1.status,
                        samples[i].1.ts,
                        lookup(spawned, n),
                        now,
                    );
                if i == k - 1 {
                    assert(r[rest.len() as int] == n);
                } else {
                    assert(rest.contains(n));
                    let p = choose|p: int| 0 <= p < rest.len() && rest[p] == n;
                    assert(r[p] == n);
                }
            }
        }
        assert forall|i: int, j: int| 0 <= i < j < r.len() implies before(
            #[trigger] r[i],
            #[trigger] r[j],
        ) by {
            if j == rest.len() {
                assert(rest[i] == r[i]);
                assert(rest.contains(r[i]));
            } else {
                assert(rest[i] == r[i] && rest[j] == r[j]);
            }
        }
    }
}

/// The wait begins at five seconds, doubles with each failure more, and stays at five minutes
/// once it has come there.
pub proof fn lemma_wait_doubles(fails: nat)
    ensures
        delay_after(0) == 5,
        delay_after(fails + 1) == if 2 * delay_after(fails) < 300 {
            2 * delay_after(fails)
        } else {
            300
        },
{
}

// ---------------------------------------------------------------- what ssh says

/// The lines that say something.
pub open spec fn telling() -> spec_fn(Seq<char>) -> bool {
    |l: Seq<char>| is_telling(l)
}

/// What is said of a stream that ended is the last of the lines that say something.
pub proof fn lemma_last_telling(ls: Seq<Seq<char>>, k: int)
    requires
        0 <= k <= ls.len(),
    ensures
        ({
            let said = ls.take(k).filter(telling());
            &&& last_telling(ls, k) is None <==> said.len() == 0
            &&& said.len() > 0 ==> last_telling(ls, k) == Some(said.last())
        }),
    decreases k,
{
    reveal(Seq::filter);
    if k > 0 {
        lemma_last_telling(ls, k - 1);
        assert(ls.take(k).drop_last() =~= ls.take(k - 1));
        assert(ls.take(k).last() == ls[k - 1]);
    }
}

/// A text holds another exactly where it is what stands before it, the other, and what stands
/// after it.
pub proof fn lemma_holds(a: Seq<char>, w: Seq<char>, b: Seq<char>, t: Seq<char>)
    ensures
        holds_from(a + w + b, w, 0),
        holds_from(t, w, 0) ==> exists|x: Seq<char>, y: Seq<char>| t == #[trigger] (x + w + y),
{
    let s = a + w + b;
    assert(s.skip(a.len() as int).take(w.len() as int) =~= w);
    lemma_holds_at(s, w, 0, a.len() as int);
    if holds_from(t, w, 0) {
        let i = lemma_held_at(t, w, 0);
        let r = t.skip(i);
        assert(t =~= t.take(i) + r.take(w.len() as int) + r.skip(w.len() as int));
        assert(t == t.take(i) + w + r.skip(w.len() as int));
    }
}

proof fn lemma_holds_at(s: Seq<char>, w: Seq<char>, i: int, n: int)
    requires
        0 <= i <= n <= s.len(),
        starts(s.skip(n), w),
    ensures
        holds_from(s, w, i),
    decreases n - i,
{
    if i < n {
        lemma_holds_at(s, w, i + 1, n);
    }
}

proof fn lemma_held_at(s: Seq<char>, w: Seq<char>, i: int) -> (r: int)
    requires
        holds_from(s, w, i),
    ensures
        0 <= r <= s.len(),
        starts(s.skip(r), w),
    decreases s.len() + 1 - i,
{
    if starts(s.skip(i), w) {
        i
    } else {
        lemma_held_at(s, w, i + 1)
    }
}

/// A line of blanks says nothing, nor does one that holds ssh's word on terminals; any other
/// line does.
pub proof fn lemma_telling(l: Seq<char>, a: Seq<char>, b: Seq<char>)
    ensures
        (forall|i: int| 0 <= i < l.len() ==> is_space(#[trigger] l[i])) ==> !is_telling(l),
        !is_telling(a + "Pseudo-terminal"@ + b),
        (exists|i: int| 0 <= i < l.len() && !is_space(#[trigger] l[i])) && (forall|
            x: Seq<char>,
            y: Seq<char>,
        | l != #[trigger] (x + "Pseudo-terminal"@ + y)) ==> is_telling(l),
{
    lemma_holds(a, "Pseudo-terminal"@, b, l);
    lemma_spaces(l, 0);
    if forall|i: int| 0 <= i < l.len() ==> is_space(#[trigger] l[i]) {
        lemma_start_bound(l, l.len() as int);
        assert(trimmed(l).len() == 0);
    }
    if exists|i: int| 0 <= i < l.len() && !is_space(#[trigger] l[i]) {
        assert(space_end(l, 0) < l.len());
        lemma_space_start(l, l.len() as int, space_end(l, 0));
        assert(trimmed(l).len() > 0);
    }
}

proof fn lemma_spaces(l: Seq<char>, i: int)
    requires
        0 <= i <= l.len(),
    ensures
        i <= space_end(l, i) <= l.len(),
        space_end(l, i) < l.len() ==> !is_space(l[space_end(l, i)]),
        forall|k: int| i <= k < space_end(l, i) ==> is_space(#[trigger] l[k]),
    decreases l.len() - i,
{
    if i < l.len() && is_space(l[i]) {
        lemma_spaces(l, i + 1);
    }
}

proof fn lemma_start_bound(l: Seq<char>, i: int)
    requires
        0 <= i <= l.len(),
    ensures
        space_start(l, i) <= i,
    decreases i,
{
    if 0 < i && is_space(l[i - 1]) {
        lemma_start_bound(l, i - 1);
    }
}

proof fn lemma_space_start(l: Seq<char>, i: int, n: int)
    requires
        0 <= n < i <= l.len(),
        !is_space(l[n]),
    ensures
        n < space_start(l, i) <= i,
    decreases i,
{
    if is_space(l[i - 1]) {
        lemma_space_start(l, i - 1, n);
    }
}

// ---------------------------------------------------------------- what is kept of a server

/// Every card that came in is on the page with its readings. Where processes came, they are
/// those that came; where none did, each card has those of the card of its index that was there
/// before, and none where there was none.
#[verifier::rlimit(60)]
pub proof fn lemma_kept_cards(
    d: Sample,
    gpus: Seq<Gpu>,
    host: Option<Host>,
    prev: Option<Sample>,
    history: Seq<Double>,
    ts: u64,
    i: int,
    j: int,
)
    requires
        is_committed(d, gpus, host, prev, history, ts),
        0 <= i < gpus.len(),
    ensures
        d.gpus@.len() == gpus.len(),
        card_of(d.gpus@[i]) == card_of(gpus[i]),
        gpus[i].procs@.len() > 0 ==> d.gpus@[i].procs@ == gpus[i].procs@,
        0 <= j < gpus.len() && gpus[j].procs@.len() > 0 ==> d.gpus@[i].procs@ == gpus[i].procs@,
        (forall|k: int| 0 <= k < gpus.len() ==> (#[trigger] gpus[k]).procs@.len() == 0)
            && 0 <= j < gpus_of(prev).len() && gpus_of(prev)[j].index == gpus[i].index && (forall|
            k: int,
        |
            0 <= k < j ==> (#[trigger] gpus_of(prev)[k]).index != gpus[i].index)
            ==> d.gpus@[i].procs@ == gpus_of(prev)[j].procs@,
        (forall|k: int| 0 <= k < gpus.len() ==> (#[trigger] gpus[k]).procs@.len() == 0) && (forall|
            k: int,
        |
            0 <= k < gpus_of(prev).len() ==> (#[trigger] gpus_of(prev)[k]).index
                != gpus[i].index) ==> d.gpus@[i].procs@.len() == 0,
{
    assert(cards_of(d.gpus@).len() == cards_of(gpus).len());
    assert(cards_of(d.gpus@)[i] == cards_of(gpus)[i]);
    assert(d.gpus@[i].procs@ == crate::collect::kept_procs(gpus, gpus_of(prev), i));
    if 0 <= j < gpus_of(prev).len() && gpus_of(prev)[j].index == gpus[i].index && (forall|k: int|
        0 <= k < j ==> (#[trigger] gpus_of(prev)[k]).index != gpus[i].index) {
        lemma_procs_at(gpus_of(prev), gpus[i].index, 0, j);
    }
    if forall|k: int|
        0 <= k < gpus_of(prev).len() ==> (#[trigger] gpus_of(prev)[k]).index != gpus[i].index {
        lemma_procs_none(gpus_of(prev), gpus[i].index, 0);
    }
}

proof fn lemma_procs_at(gpus: Seq<Gpu>, index: u32, i: int, j: int)
    requires
        0 <= i <= j < gpus.len(),
        gpus[j].index == index,
        forall|k: int| i <= k < j ==> (#[trigger] gpus[k]).index != index,
    ensures
        procs_of_index(gpus, index, i) == Some(gpus[j].procs@),
    decreases j - i,
{
    if i < j {
        lemma_procs_at(gpus, index, i + 1, j);
    }
}

proof fn lemma_procs_none(gpus: Seq<Gpu>, index: u32, i: int)
    requires
        0 <= i,
        forall|k: int| i <= k < gpus.len() ==> (#[trigger] gpus[k]).index != index,
    ensures
        procs_of_index(gpus, index, i) is None,
    decreases gpus.len() - i,
{
    if i < gpus.len() {
        lemma_procs_none(gpus, index, i + 1);
    }
}

/// A block that reports its host brings it along; one that does not leaves the host of the
/// server as it was. Either way the server is up and nothing is said against it.
pub proof fn lemma_kept_host(
    d: Sample,
    gpus: Seq<Gpu>,
    host: Option<Host>,
    prev: Option<Sample>,
    history: Seq<Double>,
    ts: u64,
)
    requires
        is_committed(d, gpus, host, prev, history, ts),
    ensures
        host is Some ==> d.host == host->0,
        host is None && prev is Some ==> d.host == prev->0.host,
        host is None && prev is None ==> d.host.load1 is None && d.host.nproc == 0
            && d.host.ram_total_mb is None && d.host.ram_used_mb is None && d.host.disk_total_kb
            is None && d.host.disk_used_kb is None && d.host.uptime_sec is None,
        d.status is Up,
        d.error@.len() == 0,
        d.ts == ts,
        d.watt_history@ == history,
{
}

// ---------------------------------------------------------------- the block under way

/// Feeding lines one after the other.
pub open spec fn buffered_all(buf: Seq<char>, ls: Seq<Seq<char>>) -> Seq<char>
    decreases ls.len(),
{
    if ls.len() == 0 {
        buf
    } else {
        buffered(buffered_all(buf, ls.drop_last()), ls.last())
    }
}

/// The lines, each with the end of its line.
pub open spec fn ended(ls: Seq<Seq<char>>) -> Seq<char>
    decreases ls.len(),
{
    if ls.len() == 0 {
        seq![]
    } else {
        ended(ls.drop_last()) + ls.last() + seq!['\n']
    }
}

/// A block under way holds the lines that came, as they came, while it is no longer than it may
/// be at any of them; it is never longer.
pub proof fn lemma_buffered(buf: Seq<char>, ls: Seq<Seq<char>>)
    ensures
        (forall|k: int|
            0 < k <= ls.len() ==> vstd::utf8::encode_utf8(buf + #[trigger] ended(ls.take(k))).len()
                <= 262_144) ==> buffered_all(buf, ls) == buf + ended(ls),
        ls.len() > 0 ==> buffered_all(buf, ls).len() == 0 || vstd::utf8::encode_utf8(
            buffered_all(buf, ls),
        ).len() <= 262_144,
    decreases ls.len(),
{
    if ls.len() == 0 {
        assert(buf + ended(ls) =~= buf);
    } else {
        let a = ls.drop_last();
        lemma_buffered(buf, a);
        if forall|k: int|
            0 < k <= ls.len() ==> vstd::utf8::encode_utf8(buf + #[trigger] ended(ls.take(k))).len()
                <= 262_144 {
            assert forall|k: int| 0 < k <= a.len() implies vstd::utf8::encode_utf8(
                buf + #[trigger] ended(a.take(k)),
            ).len() <= 262_144 by {
                assert(a.take(k) =~= ls.take(k));
            }
            assert(ls.take(ls.len() as int) =~= ls);
            assert(vstd::utf8::encode_utf8(buf + ended(ls.take(ls.len() as int))).len() <= 262_144);
            assert(buf + ended(ls) =~= buf + ended(a) + ls.last() + seq!['\n']);
        }
    }
}

// ---------------------------------------------------------------- the command

/// The home directory stands in place of the tilde before a slash, and nowhere else.
pub proof fn lemma_home(rest: Seq<char>, p: Seq<char>, home: Seq<char>)
    ensures
        expanded(seq!['~', '/'] + rest, home) == home + seq!['/'] + rest,
        p.len() < 2 || p[0] != '~' || p[1] != '/' ==> expanded(p, home) == p,
{
    reveal_strlit("~/");
    let q = seq!['~', '/'] + rest;
    assert(q.take(2) =~= "~/"@);
    assert(q.skip(2) =~= rest);
    if p.len() >= 2 && p.take(2) == "~/"@ {
        assert(p[0] == p.take(2)[0] && p[1] == p.take(2)[1]);
    }
}

/// Whether the option `key` is handed over with a value `v`: options and values stand in pairs.
pub open spec fn hands_over(args: Seq<Seq<char>>, key: Seq<char>, v: Seq<char>) -> bool {
    exists|k: int|
        0 <= 2 * k < args.len() - 1 && args[2 * k] == key && #[trigger] args[2 * k + 1] == v
}

/// ssh gets the port and the number of seconds to connect within as they are configured, never
/// asks for a password, and ends with the account on the host. A key is handed over exactly
/// where the server has one, and then no other key is offered.
#[verifier::rlimit(40)]
pub proof fn lemma_ssh(cfg: Config, s: Server, home: Seq<char>, port: Seq<char>, key: Seq<char>)
    ensures
        ({
            let args = ssh_args(cfg, s, home);
            &&& args.last() == cfg.ssh_user@ + seq!['@'] + s.host@
            &&& hands_over(args, "-p"@, port) <==> port == numeral(s.port as nat)
            &&& hands_over(args, "-i"@, key) <==> s.identity is Some && key == expanded(
                s.identity->0@,
                home,
            )
            &&& hands_over(args, "-o"@, "IdentitiesOnly=yes"@) <==> s.identity is Some
            &&& hands_over(args, "-o"@, "BatchMode=yes"@)
            &&& hands_over(args, "-o"@, "StrictHostKeyChecking=accept-new"@)
            &&& hands_over(args, "-o"@, "ServerAliveInterval=15"@)
            &&& hands_over(args, "-o"@, "ServerAliveCountMax=3"@)
            &&& hands_over(
                args,
                "-o"@,
                "ConnectTimeout="@ + numeral(cfg.connect_timeout as nat),
            )
        }),
{
    let args = ssh_args(cfg, s, home);
    reveal_strlit("-p");
    reveal_strlit("-i");
    reveal_strlit("-o");
    reveal_strlit("IdentitiesOnly=yes");
    reveal_strlit("BatchMode=yes");
    reveal_strlit("StrictHostKeyChecking=accept-new");
    reveal_strlit("ServerAliveInterval=15");
    reveal_strlit("ServerAliveCountMax=3");
    reveal_strlit("ConnectTimeout=");
    assert("-p"@[1] == 'p' && "-i"@[1] == 'i' && "-o"@[1] == 'o');
    let timeout = "ConnectTimeout="@ + numeral(cfg.connect_timeout as nat);
    assert(timeout[0] == 'C');
    assert("IdentitiesOnly=yes"@[0] == 'I');
    assert("BatchMode=yes"@[0] == 'B');
    assert("StrictHostKeyChecking=accept-new"@[0] == 'S');
    assert("ServerAliveInterval=15"@[0] == 'S');
    assert("ServerAliveCountMax=3"@[0] == 'S');
    assert(args[2 * 0int] == "-p"@ && args[2 * 0int + 1] == numeral(s.port as nat));
    assert(args[2 * 1int] == "-o"@ && args[2 * 1int + 1] == "BatchMode=yes"@);
    assert(args[2 * 2int] == "-o"@ && args[2 * 2int + 1] == "StrictHostKeyChecking=accept-new"@);
    assert(args[2 * 3int] == "-o"@ && args[2 * 3int + 1] == timeout);
    assert(args[2 * 4int] == "-o"@ && args[2 * 4int + 1] == "ServerAliveInterval=15"@);
    assert(args[2 * 5int] == "-o"@ && args[2 * 5int + 1] == "ServerAliveCountMax=3"@);
    if s.identity is Some {
        assert(args.len() == 17);
        assert(args[2 * 6int] == "-i"@ && args[2 * 6int + 1] == expanded(s.identity->0@, home));
        assert(args[2 * 7int] == "-o"@ && args[2 * 7int + 1] == "IdentitiesOnly=yes"@);
    } else {
        assert(args.len() == 13);
    }
}

} // verus!
