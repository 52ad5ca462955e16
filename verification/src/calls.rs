//! What calls give back, and how one call bears on the next.

use vstd::prelude::*;
use crate::block::{parse_block, Card};
use crate::cli::{offset_of, pause, stamp, Plan, Publisher, Waiting};
use crate::collect::{
    backoff, count_failure, delay_after, end_message, row_of, Collector, Effects, Stream,
};
use crate::collected::{lemma_last_telling, lemma_window, telling};
use crate::commands::lemma_clock;
use crate::configured::{
    config_object, is_plain_config, lemma_config_reads, lemma_pinned_reads, lemma_written_reads,
    same_rack, same_server,
};
use crate::db::{
    days_between, file_name, is_day, lemma_record_round_trip, record, row_at, Db, Row, Write, REC,
};
use crate::decimal::{lemma_numeral_number, number, parsed_i64};
use crate::double::{less, whole, Double};
use crate::files::{lemma_days_order, lemma_pruned};
use crate::http::{lowered, tag, Request};
use crate::json::{parsed_json, Json};
use crate::model::{
    array_member, first_pinned_to_name, is_address, pinned_message, pinned_to_name, Config, Gpu,
    Host, Sample, Status,
};
use crate::pieces::{is_word, is_without, lemma_bare_trimmed, lemma_three_words};
use crate::power::{day_of, is_day_text, lemma_day_text_reads, Append, PowerLog, LAST_DAY};
use crate::readings::{cards_text, is_printable_card, is_same_card, lemma_report_reads};
use crate::rows::{
    is_peak_of, lemma_row_counts, lemma_row_peaks, lemma_row_sums, of_power, of_power_limit,
    of_temp, of_util, sum_of_cards, that_work, within,
};
use crate::served::lemma_header;
use crate::summarizer::{clean_key, trend_at, Summarizer};
use crate::summary::{servers_of, watts_over};
use crate::table::{lemma_put_lookup, lookup, put};
use crate::text::{int_text, is_digit, is_space, lines, numeral, trimmed, views, words};
use crate::told::lemma_minutes_ago;
use crate::written::json_text;

verus! {

broadcast use vstd::string::group_string_axioms;

// ---------------------------------------------------------------- retries and waits

/// A row of failures is one longer after each, until a session goes well: then it starts anew,
/// and with it the wait.
pub proof fn lemma_failures(fails: u32, well: bool, r: u32, wait: u64)
    requires
        call_ensures(count_failure, (fails, well), r),
        call_ensures(backoff, (r,), wait),
    ensures
        well ==> wait == 10,
        !well && fails < u32::MAX ==> r == fails + 1,
        !well ==> delay_after(fails as nat) <= wait <= 300,
        !well && delay_after(fails as nat) < 150 ==> wait == 2 * delay_after(fails as nat),
{
}

/// The wait for the servers ends when all are up or the time is over. Before that it goes on
/// while servers come up and as long as none has; once some have, it ends after twelve seconds
/// without another. Each second brings it nearer to its end.
pub proof fn lemma_wait(w: &mut Waiting, up: usize, r: bool)
    requires
        old(w).wf(),
        call_ensures(Waiting::next, (w, up), r),
    ensures
        old(w).left == 0 ==> r,
        up >= old(w).n ==> r,
        old(w).left > 0 ==> final(w).left == old(w).left - 1,
        old(w).left > 0 && old(w).best < up < old(w).n ==> !r && final(w).stalled == 0
            && final(w).best == up,
        old(w).left > 0 && up < old(w).n && old(w).best == 0 ==> !r,
        old(w).left > 0 && up <= old(w).best && up < old(w).n ==> final(w).stalled
            == old(w).stalled + 1 && final(w).best == old(w).best,
        old(w).left > 0 && up <= old(w).best && up < old(w).n && old(w).best > 0 ==> (r
            <==> final(w).stalled >= 12),
        final(w).n == old(w).n,
{
}

/// The pause between rounds is never shorter than half a second, nor than what is left of the
/// interval.
pub proof fn lemma_pause(interval: u64, spent: Double, r: Double)
    requires
        call_ensures(pause, (interval, spent), r),
        spent.finite(),
    ensures
        !less(r, crate::decimal::dec(5, -1)),
        !less(r, crate::double::difference(whole(interval as int), spent)),
{
}

/// A stream that ended is told of by the last line of ssh's that says something; without one, it
/// is told whether anything had come.
pub proof fn lemma_ended(err: &str, got_any: bool, r: String)
    requires
        call_ensures(end_message, (err, got_any), r),
    ensures
        ({
            let said = lines(err@).filter(telling());
            &&& said.len() > 0 ==> r@ == said.last()
            &&& said.len() == 0 && got_any ==> r@ == "stream ended"@
            &&& said.len() == 0 && !got_any ==> r@ == "no data"@
        }),
{
    let ls = lines(err@);
    lemma_last_telling(ls, ls.len() as int);
    assert(ls.take(ls.len() as int) =~= ls);
}

// ---------------------------------------------------------------- clocks

proof fn lemma_int_reads(m: int)
    requires
        i64::MIN <= m <= i64::MAX,
    ensures
        parsed_i64(int_text(m)) == Some(m),
        trimmed(int_text(m)) == int_text(m),
        int_text(m).len() > 0,
        !is_space(int_text(m)[0]),
        !is_space(int_text(m).last()),
{
    let k = if m < 0 {
        (-m) as nat
    } else {
        m as nat
    };
    let t = int_text(m);
    lemma_numeral_number(k);
    let d = numeral(k);
    assert(is_digit(d[0]) && is_digit(d[d.len() - 1]));
    if m < 0 {
        assert(t.skip(1) =~= d);
        assert(t[0] == '-');
        assert(t.last() == d.last());
    } else {
        assert(t[0] == d[0]);
    }
    lemma_bare_trimmed(t);
}

/// The offset that is printed in minutes, with a blank before it or none, is taken over in
/// seconds.
pub proof fn lemma_offset(out: &str, m: i64, r: i64)
    requires
        call_ensures(offset_of, (out,), r),
        out@ == int_text(m as int) || out@ == seq![' '] + int_text(m as int),
        i64::MIN <= 60 * m <= i64::MAX,
    ensures
        r == 60 * m,
{
    lemma_int_reads(m as int);
    lemma_bare_trimmed(int_text(m as int));
    assert(m.wrapping_mul(60) == 60 * m);
}

/// A stamp shows the time of day by a clock that is so many seconds ahead: hours, minutes and
/// seconds, from midnight on.
pub proof fn lemma_stamp(secs: i64, offset: i64, r: String)
    requires
        call_ensures(stamp, (secs, offset), r),
        i64::MIN <= secs + offset <= i64::MAX,
    ensures
        r@.len() == 8,
        number(r@.subrange(0, 2)) < 24,
        number(r@.subrange(3, 5)) < 60,
        number(r@.subrange(6, 8)) < 60,
        number(r@.subrange(0, 2)) * 3600 + number(r@.subrange(3, 5)) * 60 + number(
            r@.subrange(6, 8),
        ) == (secs + offset) % 86_400,
{
    assert(secs.wrapping_add(offset) == secs + offset);
    lemma_clock((secs + offset) % 86_400);
}

/// The texts of two times are the same just where they are of one day, and come in the order of
/// the days.
pub proof fn lemma_days(a: i64, s: String, b: i64, t: String)
    requires
        call_ensures(day_of, (a,), s),
        call_ensures(day_of, (b,), t),
        0 <= a <= LAST_DAY * 86_400,
        0 <= b <= LAST_DAY * 86_400,
    ensures
        s@ == t@ <==> a as int / 86_400 == b as int / 86_400,
        crate::text::before(s@, t@) <==> (a as int) / 86_400 < (b as int) / 86_400,
        is_day(s@),
{
    lemma_days_order(s@, a as int / 86_400, t@, b as int / 86_400);
    lemma_day_text_reads(s@, a as int / 86_400);
}

/// The days of a range are all that it touches, each once and in order.
pub proof fn lemma_days_between(from: i64, to: i64, r: Vec<String>, t: i64, d: String)
    requires
        call_ensures(days_between, (from, to), r),
        call_ensures(day_of, (t,), d),
        0 <= from <= to <= LAST_DAY * 86_400,
        0 <= t <= LAST_DAY * 86_400,
    ensures
        views(r@).contains(d@) <==> from as int / 86_400 <= t as int / 86_400 <= to as int / 86_400,
        forall|i: int, j: int|
            0 <= i < j < r@.len() ==> crate::text::before(#[trigger] r@[i]@, #[trigger] r@[j]@),
{
    let first = from as int / 86_400;
    let last = to as int / 86_400;
    let n = t as int / 86_400;
    if first <= n <= last {
        let i = n - first;
        assert(is_day_text(r@[i]@, first + i));
        lemma_days_order(r@[i]@, n, d@, n);
        assert(views(r@)[i] == d@);
    }
    if views(r@).contains(d@) {
        let i = choose|i: int| 0 <= i < views(r@).len() && views(r@)[i] == d@;
        assert(is_day_text(r@[i]@, first + i));
        lemma_days_order(r@[i]@, first + i, d@, n);
    }
    assert forall|i: int, j: int| 0 <= i < j < r@.len() implies crate::text::before(
        #[trigger] r@[i]@,
        #[trigger] r@[j]@,
    ) by {
        assert(is_day_text(r@[i]@, first + i) && is_day_text(r@[j]@, first + j));
        lemma_days_order(r@[i]@, first + i, r@[j]@, first + j);
    }
}

// ---------------------------------------------------------------- the store

/// What is kept for so many days is kept for that long to the day: the file of a day goes once
/// the day is more than that many days before today.
pub proof fn lemma_prune(
    names: &[String],
    keep: i64,
    now: i64,
    r: Vec<usize>,
    i: int,
    server: Seq<char>,
    day: Seq<char>,
    n: int,
)
    requires
        call_ensures(Db::prune, (names, keep, now), r),
        0 <= keep,
        0 <= now <= LAST_DAY * 86_400,
        0 <= now - keep * 86_400,
        0 <= i < names@.len() <= usize::MAX,
        names@[i]@ == file_name(server, day),
        is_day_text(day, n),
        0 <= n <= LAST_DAY,
    ensures
        r@.contains(i as usize) <==> n + keep < now as int / 86_400,
{
    let m = (now - keep * 86_400) / 86_400;
    assert(m == now as int / 86_400 - keep);
    let cutoff = choose|cutoff: Seq<char>| #[trigger]
        is_day_text(cutoff, m) && r@ == crate::db::files_before(names@, cutoff, names@.len() as int);
    lemma_pruned(names@, cutoff, m, i, server, day, n);
}

/// A row is stored in the file of its server and its day, in a record that reads back as the row,
/// and the file is opened first just where it is not the one that is open.
pub proof fn lemma_stored(db: &Db, server: &str, row: Row, w: Write)
    requires
        call_ensures(Db::append, (db, server, row), Some(w)),
    ensures
        w.bytes@.len() == REC,
        row_at(w.bytes@, 0) == row,
        w.file@ == file_name(server@, w.day@),
        is_day_text(w.day@, row.ts as int / 86_400),
        lookup(db.open@, server@) is None ==> w.reopen,
        lookup(db.open@, server@) is Some ==> (w.reopen <==> lookup(db.open@, server@)->0@ != w.day@),
{
    assert(w.bytes@.subrange(0, REC as int) =~= w.bytes@);
    lemma_record_round_trip(row, w.bytes@, 0);
}

/// After a row was stored, the next of its server is stored just where a period has passed; the
/// rows of other servers do not wait for it.
pub proof fn lemma_period(db: &mut Db, server: &str, ts: u32, other: &str, row: Row, w: Option<Write>)
    requires
        call_ensures(Db::written, (db, server, ts), ()),
        call_ensures(Db::append, (&*final(db), other, row), w),
        lookup(old(db).last_write@, other@) is None || server@ == other@,
    ensures
        server@ == other@ ==> (w is Some <==> row.ts >= ts + old(db).period),
        server@ != other@ ==> w is Some,
{
    lemma_put_lookup(old(db).last_write@, server@, ts, other@);
}

// ---------------------------------------------------------------- streams

/// The lines of a block are kept until it ends.
pub proof fn lemma_feed_line(s: &mut Stream, line: &str, r: Option<Vec<Gpu>>)
    requires
        call_ensures(Stream::feed, (s, line), r),
        trimmed(line@) != "###END"@,
        vstd::utf8::encode_utf8(old(s).buf@ + line@ + seq!['\n']).len() <= 262_144,
    ensures
        r is None,
        final(s).buf@ == old(s).buf@ + line@ + seq!['\n'],
        final(s).last_host == old(s).last_host,
        final(s).got_any == old(s).got_any,
{
}

/// At the end of a block that printed cards, these come out, by their index and each with its
/// own quantities; nothing is left of the block, and the host that was reported last stays.
#[verifier::rlimit(60)]
pub proof fn lemma_feed_end(
    s: &mut Stream,
    line: &str,
    r: Option<Vec<Gpu>>,
    cs: Seq<Card>,
    uuids: Seq<Seq<char>>,
)
    requires
        call_ensures(Stream::feed, (s, line), r),
        trimmed(line@) == "###END"@,
        cs.len() == uuids.len(),
        cs.len() > 0,
        forall|i: int| 0 <= i < cs.len() ==> is_printable_card(#[trigger] cs[i], uuids[i]),
        old(s).buf@ == cards_text(cs, uuids, cs.len() as int),
    ensures
        r is Some,
        r->0@.len() == cs.len(),
        forall|i: int, j: int|
            0 <= i < j < cs.len() ==> (#[trigger] r->0@[i]).index <= (#[trigger] r->0@[j]).index,
        forall|k: int|
            0 <= k < cs.len() ==> exists|i: int|
                0 <= i < cs.len() && is_same_card(#[trigger] r->0@[i], #[trigger] cs[k]),
        final(s).buf@.len() == 0,
        final(s).got_any,
{
    crate::readings::lemma_cards_text(cs, uuids, cs.len() as int);
    assert(cs.take(cs.len() as int) =~= cs);
    lemma_report_reads(r->0@, cs, uuids);
}

/// What a block reads as does not depend on how it came: by lines or at once.
pub proof fn lemma_feed_reads(
    s: &mut Stream,
    line: &str,
    r: Option<Vec<Gpu>>,
    text: &str,
    b: (Vec<Gpu>, Option<Host>, Option<crate::table::Table<Vec<Double>>>),
)
    requires
        call_ensures(Stream::feed, (s, line), r),
        trimmed(line@) == "###END"@,
        call_ensures(parse_block, (text,), b),
        old(s).buf@ == text@,
    ensures
        r is Some <==> b.0@.len() > 0,
        r is Some ==> crate::block::cards_of(r->0@) == crate::block::cards_of(b.0@),
        b.1 is Some ==> final(s).last_host == b.1,
        b.1 is None ==> final(s).last_host == old(s).last_host,
        final(s).got_any <==> old(s).got_any || r is Some,
{
    let c = crate::block::block_of(text@);
    crate::block::lemma_by_index(c.cards);
    assert(crate::block::cards_of(b.0@).len() == b.0@.len());
}

// ---------------------------------------------------------------- the collector

/// The power of a server is added to its window and to no other; the log gets a row where it is
/// on.
pub proof fn lemma_record(
    p: &mut PowerLog,
    name: &str,
    watts: Double,
    gpus: &[Gpu],
    secs: i64,
    offset: i64,
    ts: u64,
    r: Option<Append>,
    other: Seq<char>,
)
    requires
        call_ensures(PowerLog::record, (p, name, watts, gpus, secs, offset, ts), r),
        old(p).points > 0,
    ensures
        final(p).window(name@).len() > 0,
        final(p).window(name@).last() == watts,
        final(p).window(name@).len() <= old(p).points,
        final(p).window(name@).len() < old(p).points ==> final(p).window(name@) == old(p).window(
            name@,
        ).push(watts),
        other != name@ ==> final(p).window(other) == old(p).window(other),
        r is Some <==> old(p).enabled,
        final(p).points == old(p).points,
{
    let w = old(p).window(name@);
    lemma_window(w, watts, old(p).points as nat);
}

/// A block changes what is held of its server and of no other: the server is up, and its cards
/// are those of the block.
#[verifier::rlimit(60)]
pub proof fn lemma_commit(
    c: &mut Collector,
    name: &str,
    gpus: Vec<Gpu>,
    host: Option<Host>,
    now: Double,
    offset: i64,
    r: Effects,
    other: Seq<char>,
)
    requires
        call_ensures(Collector::commit, (c, name, gpus, host, now, offset), r),
    ensures
        ({
            let d = lookup(final(c).samples@, name@);
            &&& d is Some
            &&& d->0.status is Up
            &&& d->0.error@.len() == 0
            &&& crate::block::cards_of(d->0.gpus@) == crate::block::cards_of(gpus@)
            &&& d->0.watt_history@ == final(c).power.window(name@)
            &&& host is Some ==> d->0.host == host->0
        }),
        other != name@ ==> lookup(final(c).samples@, other) == lookup(old(c).samples@, other),
        other != name@ ==> final(c).power.window(other) == old(c).power.window(other),
        final(c).cfg == old(c).cfg,
        gpus@.len() == 0 ==> r.row is None,
{
    let d = choose|d: Sample|
        final(c).samples@ == #[trigger] put(old(c).samples@, name@, d)
            && crate::collect::is_committed(
            d,
            gpus@,
            host,
            lookup(old(c).samples@, name@),
            final(c).power.window(name@),
            crate::collect::secs_of(now),
        );
    lemma_put_lookup(old(c).samples@, name@, d, name@);
    lemma_put_lookup(old(c).samples@, name@, d, other);
}

proof fn lemma_lookup_update(m: Seq<(Seq<char>, Sample)>, i: int, e: Sample, n: Seq<char>)
    requires
        crate::table::is_first(m, m[i].0, i),
    ensures
        lookup(m.update(i, (m[i].0, e)), n) == if n == m[i].0 {
            Some(e)
        } else {
            lookup(m, n)
        },
        lookup(m, m[i].0) == Some(m[i].1),
    decreases m.len(),
{
    let u = m.update(i, (m[i].0, e));
    if i == 0 {
        assert(u.skip(1) =~= m.skip(1));
    } else {
        let r = m.skip(1);
        assert(m[0].0 != m[i].0);
        assert(r[i - 1] == m[i]);
        assert forall|j: int| 0 <= j < i - 1 implies (#[trigger] r[j]).0 != r[i - 1].0 by {
            assert(r[j] == m[j + 1]);
        }
        lemma_lookup_update(r, i - 1, e, n);
        assert(u.skip(1) =~= r.update(i - 1, (r[i - 1].0, e)));
    }
}

/// A change of status leaves the last readings of the server on the page, and the other servers
/// as they are.
pub proof fn lemma_set_state(
    c: &mut Collector,
    name: &str,
    status: Status,
    error: &str,
    other: Seq<char>,
)
    requires
        call_ensures(Collector::set_state, (c, name, status, error), ()),
    ensures
        ({
            let d = lookup(old(c).samples@, name@);
            let e = lookup(final(c).samples@, name@);
            &&& d is None <==> e is None
            &&& d is Some ==> e->0.status == status && e->0.error@ == error@ && e->0.ts == d->0.ts
                && e->0.gpus == d->0.gpus && e->0.host == d->0.host && e->0.watts == d->0.watts
                && e->0.watt_history == d->0.watt_history
        }),
        other != name@ ==> lookup(final(c).samples@, other) == lookup(old(c).samples@, other),
        final(c).power == old(c).power,
        final(c).db == old(c).db,
{
    let m = old(c).samples@;
    if lookup(m, name@) is Some {
        let (i, e) = choose|i: int, e: Sample|
            #![trigger m.update(i, (name@, e))]
            crate::table::is_first(m, name@, i) && final(c).samples@ == m.update(i, (name@, e))
                && crate::collect::is_restated(e, lookup(m, name@)->0, status, error@);
        lemma_lookup_update(m, i, e, name@);
        lemma_lookup_update(m, i, e, other);
    }
}

// ---------------------------------------------------------------- requests

/// A request is taken by its first two words, and knows of no tag yet.
pub proof fn lemma_request_line(line: &str, r: Request, m: Seq<char>, t: Seq<char>, v: Seq<char>)
    requires
        call_ensures(Request::new, (line,), r),
        is_word(m),
        is_word(t),
        is_word(v),
        line@ == m + seq![' '] + t + seq![' '] + v,
    ensures
        r.method@ == m,
        r.target@ == t,
        r.if_none_match is None,
{
    let none = Seq::<char>::empty();
    lemma_three_words(m, t, v, none);
    assert(m + seq![' '] + t + seq![' '] + v + none =~= line@);
    let rest = seq![' '] + t + seq![' '] + v;
    assert(is_space(' '));
    crate::pieces::lemma_first_word(m, rest);
    assert(m + rest =~= line@);
}

/// The tag that a viewer has is read from its header, in whatever case that is written; no other
/// header counts, and a blank line is the end.
pub proof fn lemma_request_header(q: &mut Request, line: &str, r: bool, name: Seq<char>, v: Seq<char>)
    requires
        call_ensures(Request::feed, (q, line), r),
        is_without(name, ':'),
        is_word(name),
        is_word(v),
        line@ == name + seq![':'] + (seq![' '] + v),
    ensures
        !r,
        lowered(name) == "if-none-match"@ ==> final(q).if_none_match is Some
            && final(q).if_none_match->0@ == v,
        lowered(name) != "if-none-match"@ ==> final(q).if_none_match == old(q).if_none_match,
        final(q).method == old(q).method,
        final(q).target == old(q).target,
{
    lemma_header(name, v);
    let l = line@;
    assert(l[0] == name[0]);
    assert(l.last() == v.last());
    assert(v[v.len() - 1] == v.last());
    lemma_bare_trimmed(l);
}

// ---------------------------------------------------------------- summaries

/// An answer is kept with its time and with the power at the snapshot it was asked on, and the
/// next briefing is compared with that; a failure leaves all of this as it was.
pub proof fn lemma_refresh(
    s: &mut Summarizer,
    snapshot: &str,
    now: u32,
    o: Result<String, String>,
    r: bool,
    later: u32,
)
    requires
        call_ensures(Summarizer::refresh, (s, snapshot, now, o), r),
        now <= later,
    ensures
        o is Ok ==> final(s).text == o->Ok_0 && final(s).ts == now && final(s).failures == 0 && (r
            <==> o->Ok_0@ != old(s).text@),
        o is Ok && servers_of(snapshot@) is Some ==> trend_at(final(s).last, later) == Some(
            (
                watts_over(servers_of(snapshot@)->0, servers_of(snapshot@)->0.len() as int),
                ((later - now + 30) / 60) as u32,
            ),
        ),
        o is Err ==> !r && final(s).text == old(s).text && final(s).ts == old(s).ts
            && trend_at(final(s).last, later) == trend_at(old(s).last, later),
        o is Err && old(s).failures < u32::MAX ==> final(s).failures == old(s).failures + 1,
        final(s).prompt == old(s).prompt && final(s).model == old(s).model && final(s).timeout
            == old(s).timeout,
{
    if let Some(a) = servers_of(snapshot@) {
        lemma_minutes_ago(watts_over(a, a.len() as int), now, later);
    }
}

/// A failure is loud for the first three times in a row and no longer.
pub proof fn lemma_loud(s: &mut Summarizer, snapshot: &str, now: u32, e: String, r: bool, loud: bool)
    requires
        call_ensures(Summarizer::refresh, (s, snapshot, now, Err(e)), r),
        call_ensures(Summarizer::is_loud, (&*final(s),), loud),
    ensures
        loud <==> old(s).failures < 3,
{
}

/// A key is taken without the white space around it, and there is none where nothing is left.
pub proof fn lemma_key(raw: &str, r: Option<String>, k: Seq<char>)
    requires
        call_ensures(clean_key, (raw,), r),
        is_word(k),
        raw@ == k || raw@ == seq![' '] + k,
    ensures
        r is Some,
        r->0@ == k,
{
    assert(k[k.len() - 1] == k.last());
    lemma_bare_trimmed(k);
}

// ---------------------------------------------------------------- the configuration

/// A configuration that is written down is loaded as it was, unless an address in it is pinned
/// and yet has more than digits, points and colons: then it is turned away.
#[verifier::rlimit(60)]
pub proof fn lemma_load(raw: &str, r: Result<Config, String>, c: Config)
    requires
        call_ensures(Config::load, (raw,), r),
        is_plain_config(c),
        raw@ == json_text(Json::Obj(config_object(c))),
    ensures
        r is Err <==> exists|i: int|
            0 <= i < c.servers@.len() && (#[trigger] c.servers@[i]).pin_address && !is_address(
                c.servers@[i].host@,
            ),
        r is Ok ==> {
            let d = r->Ok_0;
            &&& d.ssh_user@ == c.ssh_user@
            &&& d.public_mode == c.public_mode
            &&& d.max_per_window == c.max_per_window
            &&& d.connect_timeout == c.connect_timeout
            &&& d.power_points == c.power_points
            &&& d.power_log == c.power_log
            &&& d.stats_period == c.stats_period
            &&& d.stats_keep_days == c.stats_keep_days
            &&& d.servers@.len() == c.servers@.len()
            &&& forall|i: int|
                0 <= i < c.servers@.len() ==> same_server(#[trigger] d.servers@[i], c.servers@[i])
            &&& forall|i: int|
                0 <= i < c.racks@.len() ==> same_rack(#[trigger] d.racks@[i], c.racks@[i])
        },
{
    let t = json_text(Json::Obj(config_object(c)));
    let j = parsed_json(t)->Ok_0;
    let a = array_member(j, "servers"@);
    assert forall|i: int| 0 <= i < c.servers@.len() implies (pinned_to_name(#[trigger] a[i])
        <==> c.servers@[i].pin_address && !is_address(c.servers@[i].host@)) by {
        lemma_pinned_reads(c, i);
    }
    lemma_written_reads(c);
    if c.servers@.len() > 0 {
        lemma_pinned_reads(c, 0);
    }
    if r is Ok {
        lemma_config_reads(c, r->Ok_0);
        if exists|i: int|
            0 <= i < c.servers@.len() && (#[trigger] c.servers@[i]).pin_address && !is_address(
                c.servers@[i].host@,
            ) {
            let i = choose|i: int|
                0 <= i < c.servers@.len() && (#[trigger] c.servers@[i]).pin_address && !is_address(
                    c.servers@[i].host@,
                );
            assert(pinned_to_name(a[i]));
        }
    } else {
        let i = choose|i: int| #[trigger]
            first_pinned_to_name(a, i) && r->Err_0@ == pinned_message(a[i]);
        assert(pinned_to_name(a[i]));
        assert(c.servers@[i].pin_address);
    }
}

// ---------------------------------------------------------------- rows

/// A row has the time it was asked for, the hottest card and the one that is used most, what all
/// draw together and the number of those that work.
#[verifier::rlimit(60)]
pub proof fn lemma_row(gpus: &[Gpu], ts: u32, r: Row)
    requires
        call_ensures(row_of, (gpus, ts), r),
        gpus@.len() <= 255,
    ensures
        r.ts == ts,
        is_peak_of(r.temp_max as int, gpus@, of_temp(), 255),
        is_peak_of(r.util_max as int, gpus@, of_util(), 100),
        r.watts == within(sum_of_cards(gpus@, of_power()), 65_535),
        r.watt_cap == within(sum_of_cards(gpus@, of_power_limit()), 65_535),
        r.gpus == gpus@.len(),
        r.busy == gpus@.filter(that_work()).len(),
{
    lemma_row_peaks(gpus@, ts);
    lemma_row_sums(gpus@, ts);
    lemma_row_counts(gpus@, ts);
}

// ---------------------------------------------------------------- rounds

/// The first round copies the page and writes the statistics, and the second copies no page.
/// What was not due keeps its time.
pub proof fn lemma_rounds(
    p: &mut Publisher,
    args: &crate::cli::Args,
    now: Double,
    enabled: bool,
    r: Plan,
)
    requires
        call_ensures(Publisher::plan, (p, args, now, enabled), r),
    ensures
        old(p).first ==> r.page && r.stats,
        !old(p).first ==> !r.page,
        !enabled ==> !r.summary,
        r.stats ==> final(p).last_stats == now,
        !r.stats ==> final(p).last_stats == old(p).last_stats,
        r.summary ==> final(p).last_summary == now,
        !r.summary ==> final(p).last_summary == old(p).last_summary,
        r.prune ==> final(p).last_prune == now,
        !r.prune ==> final(p).last_prune == old(p).last_prune,
        final(p).first == old(p).first,
{
}

} // verus!
