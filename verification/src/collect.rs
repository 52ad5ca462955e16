//! What the collector makes of the streams that the servers send.
//!
//! One ssh connection per server is held open, and a command on the far side sends a block of
//! readings every second. So one-second data costs no connections after the first: the network
//! limits how often a host may open a connection, not how much flows through one.

use vstd::prelude::*;
use crate::block::{block_of, cards_of, parse_block};
use crate::db::{file_name, open_day, record, too_early, Db, Row, Write};
use crate::double::{
    clamped, larger, less, nearest, no_sum, product, quotient, saturated, sum, whole, Double,
};
use crate::model::{
    busy_count, count_busy, is_active_order, is_blank, snapshot, write_snapshot, Config, Gpu, Host,
    Sample, Server, Status,
};
use crate::power::{copy_all, is_append, is_day_text, last_of, Append, PowerLog};
use crate::table::{is_first, lemma_put_lookup, lookup, ordered, put, Table};
use crate::text::{
    chars_of, contains, holds_from, is_str, lines, lines_of, numeral, own, part, starts,
    starts_with, string_of, texts, trim, trimmed, u64_numeral, views,
};

verus! {

broadcast use vstd::string::group_string_axioms;

// ---------------------------------------------------------------- the command

/// The path with the home directory in place of a leading `~/`.
pub open spec fn expanded(p: Seq<char>, home: Seq<char>) -> Seq<char> {
    if starts(p, "~/"@) {
        home + seq!['/'] + p.skip(2)
    } else {
        p
    }
}

/// The path with the home directory in place of a leading `~/`.
pub fn expand_home(p: &str, home: &str) -> (r: String)
    ensures
        r@ == expanded(p@, home@),
{
    let v = chars_of(p);
    if starts_with(v.as_slice(), "~/") {
        proof {
            reveal_strlit("~/");
        }
        let mut s = own(home);
        s.push('/');
        s.append(string_of(part(v.as_slice(), 2, v.len())).as_str());
        assert(s@ =~= expanded(p@, home@));
        s
    } else {
        own(p)
    }
}

/// The arguments of ssh for a server.
pub open spec fn ssh_args(cfg: Config, s: Server, home: Seq<char>) -> Seq<Seq<char>> {
    seq![
        "-p"@,
        numeral(s.port as nat),
        "-o"@,
        "BatchMode=yes"@,
        "-o"@,
        "StrictHostKeyChecking=accept-new"@,
        "-o"@,
        "ConnectTimeout="@ + numeral(cfg.connect_timeout as nat),
        "-o"@,
        "ServerAliveInterval=15"@,
        "-o"@,
        "ServerAliveCountMax=3"@,
    ] + (match s.identity {
        Some(id) => seq!["-i"@, expanded(id@, home), "-o"@, "IdentitiesOnly=yes"@],
        None => seq![],
    }) + seq![cfg.ssh_user@ + seq!['@'] + s.host@]
}

/// The arguments of ssh for a server. Without the keepalives a half-dead session can hang for
/// minutes while it delivers nothing; without the pinned key a person's own key would be
/// offered in place of the restricted one.
pub fn ssh_argv(cfg: &Config, s: &Server, home: &str) -> (r: Vec<String>)
    ensures
        views(r@) == ssh_args(*cfg, *s, home@),
{
    let mut timeout = own("ConnectTimeout=");
    timeout.append(u64_numeral(cfg.connect_timeout).as_str());
    let mut target = own(cfg.ssh_user.as_str());
    target.push('@');
    target.append(s.host.as_str());
    assert(target@ =~= cfg.ssh_user@ + seq!['@'] + s.host@);
    let mut v: Vec<String> = Vec::new();
    v.push(own("-p"));
    v.push(u64_numeral(s.port as u64));
    v.push(own("-o"));
    v.push(own("BatchMode=yes"));
    v.push(own("-o"));
    v.push(own("StrictHostKeyChecking=accept-new"));
    v.push(own("-o"));
    v.push(timeout);
    v.push(own("-o"));
    v.push(own("ServerAliveInterval=15"));
    v.push(own("-o"));
    v.push(own("ServerAliveCountMax=3"));
    match &s.identity {
        Some(id) => {
            v.push(own("-i"));
            v.push(expand_home(id.as_str(), home));
            v.push(own("-o"));
            v.push(own("IdentitiesOnly=yes"));
            v.push(target);
        },
        None => {
            v.push(target);
        },
    }
    assert(views(v@) =~= ssh_args(*cfg, *s, home@));
    v
}

// ---------------------------------------------------------------- stalls and retries

/// The number of seconds after which a stream that says nothing is taken to be stuck.
pub const STALE_AFTER_SEC: u64 = 60;

/// Whether a stream should be torn down and started again: one that delivered and then went
/// quiet, or one that is connected and never delivered. One that is still waiting to connect
/// is not at fault.
pub open spec fn wedged(status: Status, ts: u64, spawned_at: Option<u64>, now: u64) -> bool {
    match status {
        Status::Up => ts > 0 && now - ts > STALE_AFTER_SEC,
        Status::Pending => spawned_at matches Some(t) && now - t > STALE_AFTER_SEC,
        _ => false,
    }
}

/// Whether a stream should be torn down and started again.
pub fn is_wedged(status: &Status, ts: u64, spawned_at: Option<u64>, now: u64) -> (r: bool)
    ensures
        r == wedged(*status, ts, spawned_at, now),
{
    match status {
        Status::Up => ts > 0 && now > ts && now - ts > STALE_AFTER_SEC,
        Status::Pending => match spawned_at {
            Some(t) => now > t && now - t > STALE_AFTER_SEC,
            None => false,
        },
        _ => false,
    }
}

/// The line on a stream that is torn down.
pub fn stall_note(stamp: &str, name: &str) -> (r: String)
    ensures
        r@ == stamp@ + "   "@ + name@ + ": silent for over "@ + numeral(STALE_AFTER_SEC as nat)
            + "s, restarting the stream"@,
{
    let mut s = own(stamp);
    s.append("   ");
    s.append(name);
    s.append(": silent for over ");
    s.append(u64_numeral(STALE_AFTER_SEC).as_str());
    s.append("s, restarting the stream");
    s
}

/// The names, among the first `k`, of the servers whose streams are stuck.
pub open spec fn wedged_names(
    samples: Seq<(Seq<char>, Sample)>,
    spawned: Seq<(Seq<char>, u64)>,
    now: u64,
    k: int,
) -> Seq<Seq<char>>
    decreases k,
{
    if k <= 0 {
        seq![]
    } else {
        let (n, d) = samples[k - 1];
        let rest = wedged_names(samples, spawned, now, k - 1);
        if wedged(d.status, d.ts, lookup(spawned, n), now) {
            rest.push(n)
        } else {
            rest
        }
    }
}

/// The number of seconds to wait after that many failures in a row: more each time, so that a
/// host that is down or blocks us is not hammered.
pub open spec fn delay_after(fails: nat) -> nat {
    if fails == 0 {
        5
    } else if fails == 1 {
        10
    } else if fails == 2 {
        20
    } else if fails == 3 {
        40
    } else if fails == 4 {
        80
    } else if fails == 5 {
        160
    } else {
        300
    }
}

/// The number of seconds to wait after that many failures in a row.
pub fn backoff(fails: u32) -> (r: u64)
    ensures
        r == delay_after(fails as nat),
        r <= 300,
{
    if fails == 0 {
        5
    } else if fails == 1 {
        10
    } else if fails == 2 {
        20
    } else if fails == 3 {
        40
    } else if fails == 4 {
        80
    } else if fails == 5 {
        160
    } else {
        300
    }
}

/// A longer row of failures never shortens the wait, which is never over five minutes.
pub proof fn lemma_backoff_grows(a: nat, b: nat)
    requires
        a <= b,
    ensures
        5 <= delay_after(a) <= delay_after(b) <= 300,
{
}

/// The number of failures in a row after one more session, which went well or did not. The
/// count stops at the largest number there is.
pub fn count_failure(fails: u32, went_well: bool) -> (r: u32)
    ensures
        r == if went_well {
            1
        } else if fails == u32::MAX {
            u32::MAX as int
        } else {
            fails + 1
        },
{
    if went_well {
        1
    } else if fails == u32::MAX {
        u32::MAX
    } else {
        fails + 1
    }
}

/// What is said of a server that will be tried again.
pub fn reconnecting(delay: u64) -> (r: String)
    ensures
        r@ == "reconnecting in "@ + numeral(delay as nat) + "s"@,
{
    let mut s = own("reconnecting in ");
    s.append(u64_numeral(delay).as_str());
    s.append("s");
    s
}

// ---------------------------------------------------------------- a stream

/// The number of bytes of a block beyond which it is dropped.
pub const BLOCK_LIMIT: usize = 262_144;

/// A stream: the lines of the block that is under way, the last host that was reported, and
/// whether anything has come.
pub struct Stream {
    pub buf: String,
    pub last_host: Option<Host>,
    pub got_any: bool,
}

/// The block under way with one more line; nothing where it has grown too long.
pub open spec fn buffered(buf: Seq<char>, line: Seq<char>) -> Seq<char> {
    let b = buf + line + seq!['\n'];
    if vstd::utf8::encode_utf8(b).len() > BLOCK_LIMIT {
        seq![]
    } else {
        b
    }
}

impl Stream {
    /// A stream on which nothing has come.
    pub fn new() -> (r: Stream)
        ensures
            r.buf@ == Seq::<char>::empty(),
            r.last_host is None,
            !r.got_any,
    {
        Stream { buf: String::new(), last_host: None, got_any: false }
    }

    /// Takes in one line. At the end of a block with cards these come back, to be committed
    /// with the last host.
    pub fn feed(&mut self, line: &str) -> (r: Option<Vec<Gpu>>)
        ensures
            ({
                let b = block_of(old(self).buf@);
                if trimmed(line@) != "###END"@ {
                    &&& r is None
                    &&& final(self).buf@ == buffered(old(self).buf@, line@)
                    &&& final(self).last_host == old(self).last_host
                    &&& final(self).got_any == old(self).got_any
                } else {
                    &&& final(self).buf@ == Seq::<char>::empty()
                    &&& final(self).last_host == if b.saw_host {
                        Some(b.host)
                    } else {
                        old(self).last_host
                    }
                    &&& final(self).got_any == (old(self).got_any || b.cards.len() > 0)
                    &&& match r {
                        Some(g) => b.cards.len() > 0 && crate::block::is_block_cards(g@, b),
                        None => b.cards.len() == 0,
                    }
                }
            }),
    {
        let v = chars_of(line);
        if is_str(trim(v.as_slice()), "###END") {
            let (gpus, host, procs) = parse_block(self.buf.as_str());
            proof {
                crate::block::lemma_by_index(block_of(self.buf@).cards);
            }
            self.buf = String::new();
            if let Some(h) = host {
                self.last_host = Some(h);
            }
            if gpus.len() > 0 {
                self.got_any = true;
                return Some(gpus);
            }
            return None;
        }
        self.buf.append(line);
        self.buf.push('\n');
        assert(self.buf@ =~= old(self).buf@ + line@ + seq!['\n']);
        if self.buf.as_str().as_bytes().len() > BLOCK_LIMIT {
            self.buf = String::new();
        }
        None
    }
}

/// Whether a line of ssh's errors says something.
pub open spec fn is_telling(l: Seq<char>) -> bool {
    trimmed(l).len() > 0 && !holds_from(l, "Pseudo-terminal"@, 0)
}

/// The last of the first `k` lines that says something.
pub open spec fn last_telling(ls: Seq<Seq<char>>, k: int) -> Option<Seq<char>>
    decreases k,
{
    if k <= 0 {
        None
    } else if is_telling(ls[k - 1]) {
        Some(ls[k - 1])
    } else {
        last_telling(ls, k - 1)
    }
}

/// What is said of a stream that has ended, after what ssh wrote to its errors.
pub fn end_message(err: &str, got_any: bool) -> (r: String)
    ensures
        r@ == match last_telling(lines(err@), lines(err@).len() as int) {
            Some(l) => l,
            None => if got_any {
                "stream ended"@
            } else {
                "no data"@
            },
        },
{
    let v = chars_of(err);
    let ls = lines_of(v.as_slice());
    let ghost all = lines(err@);
    let mut k: usize = ls.len();
    while k > 0
        invariant
            k <= ls@.len(),
            all == texts(ls@),
            last_telling(all, all.len() as int) == last_telling(all, k as int),
            all == lines(err@),
        decreases k,
    {
        assert(all[k - 1] == ls@[k - 1]@);
        let l = ls[k - 1].as_slice();
        if trim(l).len() > 0 && !contains(l, "Pseudo-terminal") {
            return string_of(l);
        }
        k = k - 1;
    }
    if got_any {
        own("stream ended")
    } else {
        own("no data")
    }
}

// ---------------------------------------------------------------- what the cards add up to

/// The readings of a card.
#[derive(Debug, Clone, Copy, PartialEq, Eq, Structural)]
pub enum Reading {
    Power,
    PowerLimit,
    Util,
    MemUsed,
    MemTotal,
    Temp,
}

/// A reading of a card.
pub open spec fn reading_of(g: Gpu, f: Reading) -> Option<Double> {
    match f {
        Reading::Power => g.power,
        Reading::PowerLimit => g.power_limit,
        Reading::Util => g.util,
        Reading::MemUsed => g.mem_used,
        Reading::MemTotal => g.mem_total,
        Reading::Temp => g.temp,
    }
}

/// The sum of a reading over those of the first `k` cards that report it.
pub open spec fn total_of(gpus: Seq<Gpu>, f: Reading, k: int) -> Double
    decreases k,
{
    if k <= 0 {
        no_sum()
    } else {
        match reading_of(gpus[k - 1], f) {
            Some(x) => sum(total_of(gpus, f, k - 1), x),
            None => total_of(gpus, f, k - 1),
        }
    }
}

/// The largest value of a reading over those of the first `k` cards that report it; zero at
/// least.
pub open spec fn greatest_of(gpus: Seq<Gpu>, f: Reading, k: int) -> Double
    decreases k,
{
    if k <= 0 {
        whole(0)
    } else {
        match reading_of(gpus[k - 1], f) {
            Some(x) => larger(greatest_of(gpus, f, k - 1), x),
            None => greatest_of(gpus, f, k - 1),
        }
    }
}

/// Whether one of the cards reports the power it draws.
pub open spec fn reports_power(gpus: Seq<Gpu>) -> bool {
    exists|i: int| 0 <= i < gpus.len() && (#[trigger] gpus[i]).power is Some
}

fn read(g: &Gpu, f: Reading) -> (r: Option<Double>)
    ensures
        r == reading_of(*g, f),
{
    match f {
        Reading::Power => g.power,
        Reading::PowerLimit => g.power_limit,
        Reading::Util => g.util,
        Reading::MemUsed => g.mem_used,
        Reading::MemTotal => g.mem_total,
        Reading::Temp => g.temp,
    }
}

/// The sum of a reading over the cards that report it.
pub fn total(gpus: &[Gpu], f: Reading) -> (r: Double)
    ensures
        r == total_of(gpus@, f, gpus@.len() as int),
{
    let mut t = Double::no_sum();
    let mut i: usize = 0;
    while i < gpus.len()
        invariant
            i <= gpus@.len(),
            t == total_of(gpus@, f, i as int),
        decreases gpus@.len() - i,
    {
        if let Some(x) = read(&gpus[i], f) {
            t = t.plus(x);
        }
        i = i + 1;
    }
    t
}

/// The largest value of a reading over the cards that report it; zero at least.
pub fn greatest(gpus: &[Gpu], f: Reading) -> (r: Double)
    ensures
        r == greatest_of(gpus@, f, gpus@.len() as int),
{
    let mut t = Double::from_u64(0);
    let mut i: usize = 0;
    while i < gpus.len()
        invariant
            i <= gpus@.len(),
            t == greatest_of(gpus@, f, i as int),
        decreases gpus@.len() - i,
    {
        if let Some(x) = read(&gpus[i], f) {
            t = t.max(x);
        }
        i = i + 1;
    }
    t
}

fn has_power(gpus: &[Gpu]) -> (r: bool)
    ensures
        r == reports_power(gpus@),
{
    let mut i: usize = 0;
    while i < gpus.len()
        invariant
            i <= gpus@.len(),
            forall|k: int| 0 <= k < i ==> (#[trigger] gpus@[k]).power is None,
        decreases gpus@.len() - i,
    {
        if gpus[i].power.is_some() {
            assert(gpus@[i as int].power is Some);
            return true;
        }
        i = i + 1;
    }
    false
}

/// A number as an integer from zero to `hi`, rounded to the nearest.
pub open spec fn held_to(x: Double, hi: int) -> int {
    saturated(clamped(nearest(x), whole(0), whole(hi)), 0, hi)
}

fn hold_to(x: Double, hi: u16) -> (r: u16)
    ensures
        r == held_to(x, hi as int),
        r <= hi,
{
    x.round().clamp(Double::from_u64(0), Double::from_u64(hi as u64)).to_range(
        0,
        hi as i128,
    ) as u16
}

/// The number of cards, in 32 bits.
pub open spec fn card_count(gpus: Seq<Gpu>) -> int {
    gpus.len() as int % 0x1_0000_0000
}

/// The row of the store for what the cards report.
pub open spec fn stat_row(gpus: Seq<Gpu>, ts: u32) -> Row {
    let k = gpus.len() as int;
    let n = card_count(gpus);
    let busy = busy_count(gpus, k) as int;
    let mem_total = total_of(gpus, Reading::MemTotal, k);
    Row {
        ts,
        watts: held_to(total_of(gpus, Reading::Power, k), 65_535) as u16,
        watt_cap: held_to(total_of(gpus, Reading::PowerLimit, k), 65_535) as u16,
        util_avg: held_to(quotient(total_of(gpus, Reading::Util, k), whole(n)), 100) as u8,
        util_max: held_to(greatest_of(gpus, Reading::Util, k), 100) as u8,
        temp_max: held_to(greatest_of(gpus, Reading::Temp, k), 255) as u8,
        gpus: (if n > 255 {
            255
        } else {
            n
        }) as u8,
        busy: (if busy > 255 {
            255
        } else {
            busy
        }) as u8,
        mem_pct: if less(whole(0), mem_total) {
            held_to(
                product(quotient(total_of(gpus, Reading::MemUsed, k), mem_total), whole(1000)),
                1000,
            ) as u16
        } else {
            0
        },
    }
}

/// The row of the store for what the cards report.
pub fn row_of(gpus: &[Gpu], ts: u32) -> (r: Row)
    ensures
        r == stat_row(gpus@, ts),
{
    let n: u64 = gpus.len() as u64 % 0x1_0000_0000;
    let busy: usize = count_busy(gpus);
    let mem_total = total(gpus, Reading::MemTotal);
    Row {
        ts,
        watts: hold_to(total(gpus, Reading::Power), 65_535),
        watt_cap: hold_to(total(gpus, Reading::PowerLimit), 65_535),
        util_avg: hold_to(total(gpus, Reading::Util).over(Double::from_u64(n)), 100) as u8,
        util_max: hold_to(greatest(gpus, Reading::Util), 100) as u8,
        temp_max: hold_to(greatest(gpus, Reading::Temp), 255) as u8,
        gpus: if n > 255 {
            255
        } else {
            n as u8
        },
        busy: if busy > 255 {
            255
        } else {
            busy as u8
        },
        mem_pct: if Double::from_u64(0).lt(mem_total) {
            hold_to(
                total(gpus, Reading::MemUsed).over(mem_total).times(Double::from_u64(1000)),
                1000,
            )
        } else {
            0
        },
    }
}

// ---------------------------------------------------------------- the collector

/// Whether no card reports a process.
pub open spec fn no_processes(gpus: Seq<Gpu>) -> bool {
    forall|i: int| 0 <= i < gpus.len() ==> (#[trigger] gpus[i]).procs@.len() == 0
}

/// The processes of the first card of that index, from card `i` on.
pub open spec fn procs_of_index(gpus: Seq<Gpu>, index: u32, i: int) -> Option<Seq<Double>>
    decreases gpus.len() - i,
{
    if i < 0 || i >= gpus.len() {
        None
    } else if gpus[i].index == index {
        Some(gpus[i].procs@)
    } else {
        procs_of_index(gpus, index, i + 1)
    }
}

/// The processes of a card in the new sample. They come on slow blocks only; on fast ones those
/// of the sample before are kept, so that the label does not blink out every second.
pub open spec fn kept_procs(gpus: Seq<Gpu>, prev: Seq<Gpu>, i: int) -> Seq<Double> {
    if no_processes(gpus) {
        match procs_of_index(prev, gpus[i].index, 0) {
            Some(p) => p,
            None => seq![],
        }
    } else {
        gpus[i].procs@
    }
}

/// The cards of the sample before; none where there is no such sample.
pub open spec fn gpus_of(prev: Option<Sample>) -> Seq<Gpu> {
    match prev {
        Some(d) => d.gpus@,
        None => seq![],
    }
}

/// Whether `d` is the sample after these cards came in at `ts`, with the power drawn over the
/// last points in `history`.
pub open spec fn is_committed(
    d: Sample,
    gpus: Seq<Gpu>,
    host: Option<Host>,
    prev: Option<Sample>,
    history: Seq<Double>,
    ts: u64,
) -> bool {
    &&& d.status == Status::Up
    &&& d.error@ == Seq::<char>::empty()
    &&& d.ts == ts
    &&& cards_of(d.gpus@) == cards_of(gpus)
    &&& forall|i: int|
        0 <= i < gpus.len() ==> (#[trigger] d.gpus@[i]).procs@ == kept_procs(
            gpus,
            gpus_of(prev),
            i,
        )
    &&& match (host, prev) {
        (Some(h), _) => d.host == h,
        (None, Some(p)) => d.host == p.host,
        (None, None) => crate::model::is_blank_host(d.host),
    }
    &&& d.watts == if reports_power(gpus) {
        Some(total_of(gpus, Reading::Power, gpus.len() as int))
    } else {
        None
    }
    &&& d.watt_history@ == history
}

fn find_procs(gpus: &[Gpu], index: u32) -> (r: Option<Vec<Double>>)
    ensures
        match r {
            Some(p) => procs_of_index(gpus@, index, 0) == Some(p@),
            None => procs_of_index(gpus@, index, 0) is None,
        },
{
    let mut i: usize = 0;
    while i < gpus.len()
        invariant
            i <= gpus@.len(),
            procs_of_index(gpus@, index, 0) == procs_of_index(gpus@, index, i as int),
        decreases gpus@.len() - i,
    {
        if gpus[i].index == index {
            return Some(copy_all(&gpus[i].procs));
        }
        i = i + 1;
    }
    None
}

fn without_processes(gpus: &[Gpu]) -> (r: bool)
    ensures
        r == no_processes(gpus@),
{
    let mut i: usize = 0;
    while i < gpus.len()
        invariant
            i <= gpus@.len(),
            forall|k: int| 0 <= k < i ==> (#[trigger] gpus@[k]).procs@.len() == 0,
        decreases gpus@.len() - i,
    {
        if gpus[i].procs.len() > 0 {
            assert(gpus@[i as int].procs@.len() != 0);
            return false;
        }
        i = i + 1;
    }
    true
}

fn keep_procs(mut gpus: Vec<Gpu>, prev: &[Gpu]) -> (r: Vec<Gpu>)
    ensures
        cards_of(r@) == cards_of(gpus@),
        forall|i: int|
            0 <= i < gpus@.len() ==> (#[trigger] r@[i]).procs@ == kept_procs(gpus@, prev@, i),
{
    let ghost all = gpus@;
    if !without_processes(gpus.as_slice()) {
        return gpus;
    }
    let ghost cards = cards_of(all);
    let mut i: usize = 0;
    while i < gpus.len()
        invariant
            i <= gpus@.len(),
            gpus@.len() == all.len(),
            no_processes(all),
            cards_of(gpus@) == cards,
            cards == cards_of(all),
            forall|j: int| i <= j < all.len() ==> (#[trigger] gpus@[j]) == all[j],
            forall|j: int|
                0 <= j < i ==> (#[trigger] gpus@[j]).procs@ == kept_procs(all, prev@, j),
        decreases gpus@.len() - i,
    {
        let ghost held = gpus@;
        assert(held[i as int] == all[i as int]);
        match find_procs(prev, gpus[i].index) {
            Some(p) => {
                gpus[i].procs = p;
                proof {
                    assert forall|j: int| 0 <= j < cards.len() implies #[trigger] cards_of(
                        gpus@,
                    )[j] == cards[j] by {
                        assert(cards_of(held)[j] == crate::block::card_of(held[j]));
                    }
                    assert(cards_of(gpus@) =~= cards);
                }
            },
            None => {
                assert(all[i as int].procs@ =~= seq![]);
            },
        }
        i = i + 1;
    }
    gpus
}

/// What is to be written after cards came in.
pub struct Effects {
    /// What is to be added to the log.
    pub log: Option<Append>,
    /// What is to be written to the store.
    pub row: Option<Write>,
}

/// Whether `w` is what is to be written to store a row.
pub open spec fn is_write(db: Db, server: Seq<char>, row: Row, w: Option<Write>) -> bool {
    let early = too_early(lookup(db.last_write@, server), db.period, row.ts);
    match w {
        Some(w) => {
            &&& !early
            &&& is_day_text(w.day@, row.ts as int / 86_400)
            &&& w.file@ == file_name(server, w.day@)
            &&& w.reopen == (open_day(db.open@, server) != Some(w.day@))
            &&& w.bytes@ == record(row)
        },
        None => early,
    }
}

/// The collector: the configuration, the last sample of each server, the power history and the
/// store.
pub struct Collector {
    pub cfg: Config,
    pub samples: Table<Sample>,
    pub power: PowerLog,
    pub db: Db,
}

/// Whether `e` is `d` with another status and another error.
pub open spec fn is_restated(e: Sample, d: Sample, status: Status, error: Seq<char>) -> bool {
    &&& e.status == status
    &&& e.error@ == error
    &&& e.ts == d.ts
    &&& e.gpus == d.gpus
    &&& e.host == d.host
    &&& e.watts == d.watts
    &&& e.watt_history == d.watt_history
}

/// Whether `t` is the snapshot of the samples, with the active servers in their order.
pub open spec fn is_snapshot(
    t: Seq<char>,
    cfg: Config,
    samples: Seq<(Seq<char>, Sample)>,
    public: bool,
) -> bool {
    exists|p: Seq<int>, order: Seq<&Server>|
        #![trigger is_active_order(cfg.servers@, p), snapshot(cfg.racks@, order, samples, public)]
        is_active_order(cfg.servers@, p) && order.len() == p.len() && (forall|i: int|
            0 <= i < p.len() ==> *#[trigger] order[i] == cfg.servers@[p[i]]) && t == snapshot(
            cfg.racks@,
            order,
            samples,
            public,
        )
}

/// A time as an integer of 64 bits.
pub open spec fn secs_of(now: Double) -> u64 {
    saturated(now, 0, u64::MAX as int) as u64
}

impl Collector {
    /// A collector to which nothing has come: the servers that it collects from are pending.
    pub fn new(cfg: Config, stats_dir: String) -> (r: Collector)
        ensures
            r.cfg == cfg,
            forall|i: int|
                0 <= i < cfg.servers@.len() && (#[trigger] cfg.servers@[i]).enabled ==> (lookup(
                    r.samples@,
                    cfg.servers@[i].name@,
                ) matches Some(d) && is_blank(d)),
            forall|n: Seq<char>| (#[trigger] lookup(r.samples@, n)) is Some ==> exists|i: int|
                0 <= i < cfg.servers@.len() && (#[trigger] cfg.servers@[i]).enabled
                    && cfg.servers@[i].name@ == n,
            ordered(r.samples@),
            r.power.points == if cfg.power_points < 2 {
                2
            } else {
                cfg.power_points
            },
            r.power.enabled == cfg.power_log,
            forall|n: Seq<char>| #[trigger] r.power.window(n) == Seq::<Double>::empty(),
            r.power.day@ == Seq::<char>::empty(),
            r.db.dir == stats_dir,
            r.db.period == if cfg.stats_period == 0 {
                1
            } else {
                cfg.stats_period
            },
            r.db.last_write@ == Seq::<(Seq<char>, u32)>::empty(),
            forall|n: Seq<char>| lookup(r.db.last_write@, n) is None,
            forall|n: Seq<char>| #[trigger] open_day(r.db.open@, n) is None,
    {
        let mut samples: Table<Sample> = Table::new();
        let mut k: usize = 0;
        while k < cfg.servers.len()
            invariant
                k <= cfg.servers@.len(),
                ordered(samples@),
                forall|i: int|
                    0 <= i < k && (#[trigger] cfg.servers@[i]).enabled ==> (lookup(
                        samples@,
                        cfg.servers@[i].name@,
                    ) matches Some(d) && is_blank(d)),
                forall|n: Seq<char>| (#[trigger] lookup(samples@, n)) is Some ==> exists|i: int|
                    0 <= i < k && (#[trigger] cfg.servers@[i]).enabled && cfg.servers@[i].name@
                        == n,
            decreases cfg.servers@.len() - k,
        {
            if cfg.servers[k].enabled {
                let ghost held = samples@;
                let ghost name = cfg.servers@[k as int].name@;
                let d = Sample::default();
                samples.insert(own(cfg.servers[k].name.as_str()), d);
                proof {
                    assert forall|n: Seq<char>| (#[trigger] lookup(samples@, n)) == if n == name {
                        Some(d)
                    } else {
                        lookup(held, n)
                    } by {
                        lemma_put_lookup(held, name, d, n);
                    }
                }
            }
            k = k + 1;
        }
        let power = PowerLog::new(cfg.power_points, cfg.power_log);
        let db = Db::open(stats_dir, cfg.stats_period);
        Collector { cfg, samples, power, db }
    }

    /// The snapshot, as the dashboard reads it.
    pub fn snapshot_json(&self, public: bool) -> (r: String)
        ensures
            is_snapshot(r@, self.cfg, self.samples@, public),
    {
        let order = self.cfg.active();
        write_snapshot(&self.cfg, order.as_slice(), &self.samples, public)
    }

    /// The last sample of each server.
    pub fn samples(&self) -> (r: &Table<Sample>)
        ensures
            *r == self.samples,
    {
        &self.samples
    }

    /// The configuration.
    pub fn config(&self) -> (r: &Config)
        ensures
            *r == self.cfg,
    {
        &self.cfg
    }

    /// The names of the servers whose streams are stuck; `spawned` says when each ssh process
    /// was started.
    pub fn stuck(&self, spawned: &Table<u64>, now: u64) -> (r: Vec<String>)
        ensures
            views(r@) == wedged_names(
                self.samples@,
                spawned@,
                now,
                self.samples@.len() as int,
            ),
    {
        let mut out: Vec<String> = Vec::new();
        let mut k: usize = 0;
        assert(views(out@) =~= wedged_names(self.samples@, spawned@, now, 0));
        while k < self.samples.entries.len()
            invariant
                k <= self.samples@.len(),
                views(out@) == wedged_names(self.samples@, spawned@, now, k as int),
            decreases self.samples@.len() - k,
        {
            let ghost held = out@;
            let name: &String = &self.samples.entries[k].0;
            let d: &Sample = &self.samples.entries[k].1;
            let at: Option<u64> = match spawned.get(name.as_str()) {
                Some(t) => Some(*t),
                None => None,
            };
            if is_wedged(&d.status, d.ts, at, now) {
                out.push(own(name.as_str()));
                proof {
                    assert(views(out@) =~= views(held).push(name@));
                }
            }
            k = k + 1;
        }
        out
    }

    /// Sets the status of a server and what is said of it. Its last readings stay on the page.
    pub fn set_state(&mut self, name: &str, status: Status, error: &str)
        ensures
            final(self).cfg == old(self).cfg,
            final(self).power == old(self).power,
            final(self).db == old(self).db,
            match lookup(old(self).samples@, name@) {
                None => final(self).samples == old(self).samples,
                Some(d) => exists|i: int, e: Sample|
                    #![trigger old(self).samples@.update(i, (name@, e))]
                    is_first(old(self).samples@, name@, i) && final(self).samples@ == old(
                        self,
                    ).samples@.update(i, (name@, e)) && is_restated(e, d, status, error@),
            },
    {
        let ghost m = self.samples@;
        if let Some(i) = self.samples.find(name) {
            self.samples.entries[i].1.status = status;
            self.samples.entries[i].1.error = own(error);
            proof {
                let e = self.samples.entries@[i as int].1;
                assert(self.samples@ =~= m.update(i as int, (name@, e)));
            }
        }
    }

    /// Takes in the cards of one block, and says what is to be written. The clock is `offset`
    /// seconds ahead of UTC.
    pub fn commit(
        &mut self,
        name: &str,
        gpus: Vec<Gpu>,
        host: Option<Host>,
        now: Double,
        offset: i64,
    ) -> (r: Effects)
        ensures
            final(self).cfg == old(self).cfg,
            final(self).db == old(self).db,
            ordered(old(self).samples@) ==> ordered(final(self).samples@),
            ({
                let watts = total_of(gpus@, Reading::Power, gpus@.len() as int);
                let window = if reports_power(gpus@) {
                    last_of(old(self).power.window(name@).push(watts), old(self).power.points as nat)
                } else {
                    old(self).power.window(name@)
                };
                let secs = saturated(now, i64::MIN as int, i64::MAX as int) as i64;
                &&& final(self).power.window(name@) == window
                &&& forall|n: Seq<char>|
                    n != name@ ==> #[trigger] final(self).power.window(n)
                        == old(self).power.window(n)
                &&& final(self).power.points == old(self).power.points
                &&& final(self).power.enabled == old(self).power.enabled
                &&& final(self).power.day@ == old(self).power.day@
                &&& match r.log {
                    Some(a) => reports_power(gpus@) && old(self).power.enabled && is_append(
                        a,
                        old(self).power.day@,
                        secs,
                        offset,
                        secs_of(now),
                        name@,
                        gpus@,
                    ),
                    None => !reports_power(gpus@) || !old(self).power.enabled,
                }
                &&& if gpus@.len() == 0 {
                    r.row is None
                } else {
                    is_write(
                        old(self).db,
                        name@,
                        stat_row(gpus@, saturated(now, 0, u32::MAX as int) as u32),
                        r.row,
                    )
                }
                &&& exists|d: Sample|
                    final(self).samples@ == #[trigger] put(old(self).samples@, name@, d)
                        && is_committed(
                        d,
                        gpus@,
                        host,
                        lookup(old(self).samples@, name@),
                        window,
                        secs_of(now),
                    )
            }),
    {
        let watts = total(gpus.as_slice(), Reading::Power);
        let power: bool = has_power(gpus.as_slice());
        let secs: i64 = now.to_range(i64::MIN as i128, i64::MAX as i128) as i64;
        let ts: u64 = now.to_range(0, u64::MAX as i128) as u64;
        let log: Option<Append> = if power {
            self.power.record(name, watts, gpus.as_slice(), secs, offset, ts)
        } else {
            None
        };
        let history = self.power.series(name);
        let row: Option<Write> = if gpus.len() == 0 {
            None
        } else {
            let at: u32 = now.to_range(0, u32::MAX as i128) as u32;
            self.db.append(name, row_of(gpus.as_slice(), at))
        };
        let ghost prev = lookup(self.samples@, name@);
        let ghost all = gpus@;
        let (kept, old_host): (Vec<Gpu>, Host) = match self.samples.get(name) {
            Some(d) => (keep_procs(gpus, d.gpus.as_slice()), copy_host(&d.host)),
            None => {
                let none: Vec<Gpu> = Vec::new();
                assert(none@ =~= gpus_of(prev));
                (keep_procs(gpus, none.as_slice()), crate::model::blank_host())
            },
        };
        let d = Sample {
            status: Status::Up,
            error: String::new(),
            ts,
            gpus: kept,
            host: match host {
                Some(h) => h,
                None => old_host,
            },
            watts: if power {
                Some(watts)
            } else {
                None
            },
            watt_history: history,
        };
        proof {
            assert(d.error@ =~= Seq::<char>::empty());
        }
        self.samples.insert(own(name), d);
        Effects { log, row }
    }
}

fn copy_host(h: &Host) -> (r: Host)
    ensures
        r == *h,
{
    Host {
        load1: h.load1,
        nproc: h.nproc,
        ram_total_mb: h.ram_total_mb,
        ram_used_mb: h.ram_used_mb,
        disk_total_kb: h.disk_total_kb,
        disk_used_kb: h.disk_used_kb,
        uptime_sec: h.uptime_sec,
    }
}

} // verus!
