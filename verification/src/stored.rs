//! What the store gives back of what was stored.
//!
//! Rows come one after the other, of any servers. Each is stored or refused, and what is stored
//! goes to the end of the file of its server and day.

use vstd::prelude::*;
use crate::db::{
    between, dated, day_files, day_start, earliest_ts, file_name, growing, in_time_order, is_day,
    lemma_between_members, lemma_range_reads_back, lemma_records_len, oldest_day, record,
    record_counts, records, row_at, rows_of_day, stride_for, strided_rows, sum_of,
    too_early, Row, REC,
};
use crate::power::{is_day_text, lemma_day_text_reads};
use crate::table::{lemma_before_total, lemma_before_transitive, lemma_put_lookup, lookup, put};
use crate::text::before;

verus! {

broadcast use vstd::string::group_string_axioms;

// ---------------------------------------------------------------- appends

/// When the last row of each server was stored, after the first `k` rows came to a store that was
/// empty.
pub open spec fn last_after(period: u32, log: Seq<(Seq<char>, Row)>, k: int) -> Seq<
    (Seq<char>, u32),
>
    decreases k,
{
    if k <= 0 {
        seq![]
    } else {
        let held = last_after(period, log, k - 1);
        let (server, row) = log[k - 1];
        if too_early(lookup(held, server), period, row.ts) {
            held
        } else {
            put(held, server, row.ts)
        }
    }
}

/// Whether row `i` is stored.
pub open spec fn is_stored(period: u32, log: Seq<(Seq<char>, Row)>, i: int) -> bool {
    !too_early(lookup(last_after(period, log, i), log[i].0), period, log[i].1.ts)
}

/// Those of the first `k` rows that are of the server and are stored, in the order in which they
/// came.
pub open spec fn stored(
    period: u32,
    log: Seq<(Seq<char>, Row)>,
    server: Seq<char>,
    k: int,
) -> Seq<Row>
    decreases k,
{
    if k <= 0 {
        seq![]
    } else if is_stored(period, log, k - 1) && log[k - 1].0 == server {
        stored(period, log, server, k - 1).push(log[k - 1].1)
    } else {
        stored(period, log, server, k - 1)
    }
}

/// Whether this is the name of the file of a server and day `n`.
pub open spec fn is_file_of(name: Seq<char>, server: Seq<char>, n: int) -> bool {
    exists|day: Seq<char>| #[trigger] is_day_text(day, n) && name == file_name(server, day)
}

/// What a file holds after the first `k` rows came, in a store that was empty.
pub open spec fn file_after(
    period: u32,
    log: Seq<(Seq<char>, Row)>,
    name: Seq<char>,
    k: int,
) -> Seq<u8>
    decreases k,
{
    if k <= 0 {
        seq![]
    } else {
        let (server, row) = log[k - 1];
        if is_stored(period, log, k - 1) && is_file_of(name, server, row.ts as int / 86_400) {
            file_after(period, log, name, k - 1) + record(row)
        } else {
            file_after(period, log, name, k - 1)
        }
    }
}

proof fn lemma_last(period: u32, log: Seq<(Seq<char>, Row)>, server: Seq<char>, k: int)
    requires
        0 <= k <= log.len(),
    ensures
        ({
            let rows = stored(period, log, server, k);
            lookup(last_after(period, log, k), server) == if rows.len() == 0 {
                None
            } else {
                Some(rows.last().ts)
            }
        }),
    decreases k,
{
    if k > 0 {
        lemma_last(period, log, server, k - 1);
        lemma_put_lookup(
            last_after(period, log, k - 1),
            log[k - 1].0,
            log[k - 1].1.ts,
            server,
        );
    }
}

/// The rows of a server that are stored are at least a period apart.
pub proof fn lemma_stored_apart(
    period: u32,
    log: Seq<(Seq<char>, Row)>,
    server: Seq<char>,
    k: int,
    i: int,
    j: int,
)
    requires
        0 <= k <= log.len(),
        0 <= i < j < stored(period, log, server, k).len(),
    ensures
        stored(period, log, server, k)[i].ts + period <= stored(period, log, server, k)[j].ts,
    decreases k,
{
    let rows = stored(period, log, server, k);
    let prev = stored(period, log, server, k - 1);
    if j < prev.len() {
        lemma_stored_apart(period, log, server, k - 1, i, j);
    } else {
        lemma_last(period, log, server, k - 1);
        if i < prev.len() - 1 {
            lemma_stored_apart(period, log, server, k - 1, i, prev.len() - 1);
        }
        assert(rows[i] == prev[i]);
    }
}

/// The rows of a server that are stored grow in time.
pub proof fn lemma_stored_grow(
    period: u32,
    log: Seq<(Seq<char>, Row)>,
    server: Seq<char>,
    k: int,
)
    requires
        period >= 1,
        0 <= k <= log.len(),
    ensures
        growing(stored(period, log, server, k)),
{
    let rows = stored(period, log, server, k);
    assert forall|i: int, j: int| 0 <= i < j < rows.len() implies (#[trigger] rows[i]).ts < (
    #[trigger] rows[j]).ts by {
        lemma_stored_apart(period, log, server, k, i, j);
    }
}

// ---------------------------------------------------------------- files

/// A file is of one server and one day.
pub proof fn lemma_one_file(
    server: Seq<char>,
    day: Seq<char>,
    n: int,
    other: Seq<char>,
    m: int,
)
    requires
        is_day_text(day, n),
        0 <= n <= u32::MAX as int / 86_400,
        0 <= m <= u32::MAX as int / 86_400,
    ensures
        is_file_of(file_name(server, day), other, m) <==> (other == server && m == n),
{
    let name = file_name(server, day);
    lemma_day_text_reads(day, n);
    if is_file_of(name, other, m) {
        let e = choose|e: Seq<char>| #[trigger] is_day_text(e, m) && name == file_name(other, e);
        lemma_day_text_reads(e, m);
        let end = ".bin"@;
        assert(name.len() == server.len() + 1 + day.len() + end.len());
        assert(name.len() == other.len() + 1 + e.len() + end.len());
        assert(server =~= name.take(server.len() as int));
        assert(other =~= name.take(server.len() as int));
        let at = server.len() as int + 1;
        assert(day =~= name.subrange(at, at + 8));
        assert(e =~= name.subrange(at, at + 8));
    }
}

/// The rows that are stored land in the file of their server and day, and nothing else does.
pub proof fn lemma_file_holds(
    period: u32,
    log: Seq<(Seq<char>, Row)>,
    server: Seq<char>,
    day: Seq<char>,
    n: int,
    k: int,
)
    requires
        is_day_text(day, n),
        0 <= n <= u32::MAX as int / 86_400,
        0 <= k <= log.len(),
    ensures
        file_after(period, log, file_name(server, day), k) == records(
            rows_of_day(stored(period, log, server, k), n),
        ),
    decreases k,
{
    if k > 0 {
        lemma_file_holds(period, log, server, day, n, k - 1);
        let (s, row) = log[k - 1];
        lemma_one_file(server, day, n, s, row.ts as int / 86_400);
        let prev = stored(period, log, server, k - 1);
        if is_stored(period, log, k - 1) && s == server {
            assert(prev.push(row).drop_last() =~= prev);
            if row.ts as int / 86_400 == n {
                let held = rows_of_day(prev, n);
                assert(held.push(row).drop_last() =~= held);
            }
        }
    }
}

/// A day has no more rows than seconds.
proof fn lemma_day_count(rows: Seq<Row>, n: int)
    requires
        growing(rows),
    ensures
        rows_of_day(rows, n).len() <= 86_400,
{
    let held = rows_of_day(rows, n);
    lemma_between_members(rows, n * 86_400, n * 86_400 + 86_399);
    if held.len() > 86_400 {
        lemma_spread(held, 86_400);
        assert(held[0].ts >= n * 86_400);
        assert(held[86_400].ts <= n * 86_400 + 86_399);
    }
}

proof fn lemma_spread(rows: Seq<Row>, i: int)
    requires
        growing(rows),
        0 <= i < rows.len(),
    ensures
        rows[i].ts >= rows[0].ts + i,
    decreases i,
{
    if i > 0 {
        lemma_spread(rows, i - 1);
        assert(rows[i - 1].ts < rows[i].ts);
    }
}

proof fn lemma_sum_bound(counts: Seq<usize>, k: int)
    requires
        0 <= k <= counts.len(),
        forall|i: int| 0 <= i < counts.len() ==> (#[trigger] counts[i]) <= 86_400,
    ensures
        sum_of(counts, k) <= 86_400 * k,
    decreases k,
{
    if k > 0 {
        lemma_sum_bound(counts, k - 1);
    }
}

/// The law of the store. Rows of any servers come to an empty store, each stored or refused. Then
/// a range gives back the rows of the server that were stored and are from `from` to `to`, both
/// included: all of them, each once, in the order in which they came, which is the order of time,
/// across the bounds of days, and none of another server. The days are those of the range, and
/// the files those of the server and these days.
pub proof fn lemma_store_reads_back(
    period: u32,
    log: Seq<(Seq<char>, Row)>,
    server: Seq<char>,
    from: u32,
    to: u32,
    days: Seq<Seq<char>>,
    files: Seq<Seq<u8>>,
)
    requires
        period >= 1,
        days.len() == if to as int / 86_400 < from as int / 86_400 {
            1
        } else {
            to as int / 86_400 - from as int / 86_400 + 1
        },
        forall|i: int|
            0 <= i < days.len() ==> is_day_text(#[trigger] days[i], from as int / 86_400 + i),
        files.len() == days.len(),
        forall|i: int|
            0 <= i < files.len() ==> (#[trigger] files[i]) == file_after(
                period,
                log,
                file_name(server, days[i]),
                log.len() as int,
            ),
    ensures
        strided_rows(files, from, to, usize::MAX as nat) == between(
            stored(period, log, server, log.len() as int),
            from as int,
            to as int,
        ),
        growing(strided_rows(files, from, to, usize::MAX as nat)),
{
    let rows = stored(period, log, server, log.len() as int);
    let d = from as int / 86_400;
    let n = days.len();
    lemma_stored_grow(period, log, server, log.len() as int);
    let held = day_files(rows, d, n);
    let counts = record_counts(files);
    assert forall|i: int| 0 <= i < n implies #[trigger] files[i] == held[i] && counts[i]
        <= 86_400 by {
        assert(is_day_text(days[i], d + i));
        assert(d + i <= u32::MAX as int / 86_400);
        lemma_file_holds(period, log, server, days[i], d + i, log.len() as int);
        lemma_day_count(rows, d + i);
        lemma_records_len(rows_of_day(rows, d + i));
        assert(files[i] == records(rows_of_day(rows, d + i)));
        assert(counts[i] == (files[i].len() / REC as nat) as usize);
    }
    assert(files =~= held);
    assert forall|i: int| 0 <= i < counts.len() implies (#[trigger] counts[i]) <= 86_400 by {
        assert(files[i] == held[i]);
    }
    lemma_sum_bound(counts, n as int);
    let total = sum_of(counts, n as int);
    let want = usize::MAX as nat;
    assert(total < 2 * want);
    assert(stride_for(total, want) == 1) by {
        if total > want {
            assert(total / want == 1) by (nonlinear_arith)
                requires
                    want < total < 2 * want,
            ;
        }
    }
    lemma_range_reads_back(rows, from, to, d, n);
    lemma_between_members(rows, from as int, to as int);
}

// ---------------------------------------------------------------- the oldest row

/// The day in a file's name starts when the day itself does.
pub proof fn lemma_day_start(day: Seq<char>, n: int)
    requires
        is_day_text(day, n),
        0 <= n <= u32::MAX as int / 86_400,
    ensures
        is_day(day),
        day_start(day) == n * 86_400,
{
    lemma_day_text_reads(day, n);
}

/// The oldest day is the day of some file, and no file has an older one.
pub proof fn lemma_oldest_day(names: Seq<String>, k: int)
    requires
        0 <= k <= names.len(),
    ensures
        match oldest_day(names, k) {
            Some(d) => {
                &&& exists|i: int| 0 <= i < k && dated((#[trigger] names[i])@) == Some(d)
                &&& forall|i: int|
                    0 <= i < k && dated((#[trigger] names[i])@) is Some ==> !before(
                        dated(names[i]@)->0,
                        d,
                    )
            },
            None => forall|i: int| 0 <= i < k ==> dated((#[trigger] names[i])@) is None,
        },
    decreases k,
{
    if k > 0 {
        lemma_oldest_day(names, k - 1);
        match (oldest_day(names, k - 1), dated(names[k - 1]@)) {
            (Some(b), Some(d)) => {
                lemma_before_total(b, d);
                assert forall|i: int| 0 <= i < k && dated((#[trigger] names[i])@) is Some implies
                    !before(dated(names[i]@)->0, oldest_day(names, k)->0) by {
                    let e = dated(names[i]@)->0;
                    lemma_before_total(e, e);
                    if before(d, b) && before(e, d) {
                        lemma_before_transitive(e, d, b);
                        lemma_before_total(d, b);
                    }
                }
            },
            (None, Some(d)) => {
                lemma_before_total(d, d);
            },
            (b, None) => {},
        }
    }
}

/// The oldest row on disk: where each file is in the order of time, the earliest of the first
/// records is the earliest of all records in files with a date, and there is none just where
/// these files have no record.
pub proof fn lemma_earliest_row(
    names: Seq<String>,
    firsts: Seq<Vec<u8>>,
    files: Seq<Seq<u8>>,
    k: int,
)
    requires
        names.len() == firsts.len() == files.len(),
        0 <= k <= names.len(),
        forall|i: int|
            0 <= i < files.len() ==> in_time_order(
                #[trigger] files[i],
                files[i].len() as int / REC as int,
            ),
        forall|i: int|
            0 <= i < files.len() ==> (#[trigger] firsts[i])@ == files[i].take(
                if files[i].len() < REC {
                    files[i].len() as int
                } else {
                    REC as int
                },
            ),
    ensures
        match earliest_ts(names, firsts, k) {
            Some(t) => {
                &&& exists|i: int|
                    0 <= i < k && dated((#[trigger] names[i])@) is Some && files[i].len() >= REC
                        && row_at(files[i], 0).ts == t
                &&& forall|i: int, j: int|
                    0 <= i < k && dated(names[i]@) is Some && 0 <= j < files[i].len() as int
                        / REC as int ==> t <= (#[trigger] row_at(files[i], j * REC)).ts
            },
            None => forall|i: int|
                0 <= i < k && dated((#[trigger] names[i])@) is Some ==> files[i].len() < REC,
        },
    decreases k,
{
    if k > 0 {
        lemma_earliest_row(names, firsts, files, k - 1);
        let f = files[k - 1];
        let b = firsts[k - 1]@;
        assert(in_time_order(files[k - 1], files[k - 1].len() as int / REC as int));
        if dated(names[k - 1]@) is Some && f.len() >= REC {
            assert(b.len() == REC);
            assert(row_at(b, 0) == row_at(f, 0));
            assert forall|j: int| 0 <= j < f.len() as int / REC as int implies row_at(f, 0).ts
                <= (#[trigger] row_at(f, j * REC)).ts by {
                if j > 0 {
                    assert(row_at(f, 0 * REC).ts < row_at(f, j * REC).ts);
                }
            }
        }
    }
}

} // verus!
