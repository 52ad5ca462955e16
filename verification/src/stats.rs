//! The statistics for the page: several fixed grids of time, with one column of numbers per
//! server and quantity. Every server has the same slots in a range, so the page can add servers
//! up to racks.

use vstd::prelude::*;
use crate::collect::Collector;
use crate::db::{grid, slot_row, Row};
use crate::double::{whole, Double};
use crate::json::{
    array_text, entry, lemma_entry, lemma_listed_push, listed, num_text, object_text, quoted,
    Writer,
};
use crate::model::{is_active_order, Server};

verus! {

broadcast use vstd::string::group_string_axioms;

/// The ranges that the page offers: their names, their lengths in seconds and their numbers of
/// slots. The slots of the first three are two minutes, ten minutes and one hour; the last
/// reaches back to the oldest row, and an hour at least.
pub open spec fn ranges_from(earliest: Option<u32>, now: u32) -> Seq<(Seq<char>, u32, usize)> {
    let span = match earliest {
        Some(e) => if now > e && now - e > 3600 {
            (now - e) as u32
        } else {
            3600
        },
        None => 3600,
    };
    seq![
        ("6h"@, 21_600, 180),
        ("24h"@, 86_400, 144),
        ("7d"@, 604_800, 168),
        ("all"@, span, 200),
    ]
}

/// The views of ranges.
pub open spec fn range_views(v: Seq<(&str, u32, usize)>) -> Seq<(Seq<char>, u32, usize)> {
    Seq::new(v.len(), |i: int| (v[i].0@, v[i].1, v[i].2))
}

/// The number of slots of a range, one at least.
pub open spec fn slots_of(slots: usize) -> usize {
    if slots == 0 {
        1
    } else {
        slots
    }
}

/// The length of a slot, one second at least. The number of slots counts in 32 bits.
pub open spec fn step_of(span: u32, slots: usize) -> u32 {
    let s = span as int / (slots_of(slots) as int % 0x1_0000_0000);
    if s < 1 {
        1
    } else {
        s as u32
    }
}

/// Where a range starts: on a boundary of a slot, so that the slots do not shift from one
/// writing to the next.
pub open spec fn start_of(span: u32, slots: usize, now: u32) -> u32 {
    let step = step_of(span, slots);
    let back = if now > span {
        (now - span) as u32
    } else {
        0
    };
    (back / step * step) as u32
}

/// Whether the length of a slot can be computed.
pub open spec fn divides(slots: usize) -> bool {
    slots_of(slots) as int % 0x1_0000_0000 != 0
}

/// Where a range starts, the length of its slots and their number.
pub fn grid_of(span: u32, slots: usize, now: u32) -> (r: (u32, u32, usize))
    requires
        divides(slots),
    ensures
        r.0 == start_of(span, slots, now),
        r.1 == step_of(span, slots),
        r.2 == slots_of(slots),
        r.1 > 0,
{
    let n: usize = if slots == 0 {
        1
    } else {
        slots
    };
    let d: u32 = (n as u64 % 0x1_0000_0000) as u32;
    let mut step: u32 = span / d;
    if step == 0 {
        step = 1;
    }
    let back: u32 = if now > span {
        now - span
    } else {
        0
    };
    assert(back / step * step <= back) by (nonlinear_arith)
        requires
            step > 0,
    ;
    (back / step * step, step, n)
}

/// The slots of a range start on a boundary, and the first one holds its far end.
pub proof fn lemma_grid_snaps(span: u32, slots: usize, now: u32)
    requires
        divides(slots),
    ensures
        start_of(span, slots, now) as int % step_of(span, slots) as int == 0,
        start_of(span, slots, now) <= (if now > span {
            now - span
        } else {
            0
        }) < start_of(span, slots, now) + step_of(span, slots),
{
    let step = step_of(span, slots) as int;
    let back = if now > span {
        now - span
    } else {
        0
    };
    assert(step > 0) by {
        let d = slots_of(slots) as int % 0x1_0000_0000;
        assert(span as int / d <= span) by (nonlinear_arith)
            requires
                d > 0,
                span >= 0,
        ;
    }
    vstd::arithmetic::div_mod::lemma_fundamental_div_mod(back, step);
    assert(0 <= back / step * step <= back) by (nonlinear_arith)
        requires
            step > 0,
            back >= 0,
    ;
    vstd::arithmetic::div_mod::lemma_mod_multiples_basic(back / step, step);
    vstd::arithmetic::mul::lemma_mul_is_commutative(back / step, step);
}

/// How many rows of a range are read: eight for each slot, which bounds the reading of a range
/// of a year. The number stops at the largest there is.
pub fn rows_wanted(slots: usize) -> (r: usize)
    ensures
        r == if slots_of(slots) * 8 > usize::MAX {
            usize::MAX as int
        } else {
            slots_of(slots) * 8
        },
{
    let n: usize = if slots == 0 {
        1
    } else {
        slots
    };
    if n > usize::MAX / 8 {
        usize::MAX
    } else {
        n * 8
    }
}

/// The columns of the statistics.
#[derive(Debug, Clone, Copy, PartialEq, Eq, Structural)]
pub enum Column {
    Watts,
    UtilAvg,
    UtilMax,
    TempMax,
    Busy,
    Gpus,
}

/// The value of a column in a row.
pub open spec fn column_of(r: Row, c: Column) -> int {
    match c {
        Column::Watts => r.watts as int,
        Column::UtilAvg => r.util_avg as int,
        Column::UtilMax => r.util_max as int,
        Column::TempMax => r.temp_max as int,
        Column::Busy => r.busy as int,
        Column::Gpus => r.gpus as int,
    }
}

/// The texts of a column.
pub open spec fn column_texts(rows: Seq<Row>, c: Column) -> Seq<Seq<char>> {
    Seq::new(rows.len(), |i: int| num_text(whole(column_of(rows[i], c))))
}

/// The columns of one server in one range.
pub open spec fn columns_text(rows: Seq<Row>) -> Seq<char> {
    object_text(
        seq![
            entry("w"@, array_text(column_texts(rows, Column::Watts))),
            entry("u"@, array_text(column_texts(rows, Column::UtilAvg))),
            entry("x"@, array_text(column_texts(rows, Column::UtilMax))),
            entry("t"@, array_text(column_texts(rows, Column::TempMax))),
            entry("b"@, array_text(column_texts(rows, Column::Busy))),
            entry("g"@, array_text(column_texts(rows, Column::Gpus))),
        ],
    )
}

/// The slots of one server in one range.
pub open spec fn slot_rows(rows: Seq<Row>, from: u32, step: u32, n: nat) -> Seq<Row> {
    Seq::new(n, |i: int| slot_row(rows, from, step, i))
}

/// A server, for the statistics.
pub open spec fn about(s: Server) -> Seq<char> {
    object_text(
        seq![
            entry("name"@, quoted(s.name@)),
            entry("gpu"@, quoted(s.gpu_model@)),
            entry("n_gpu"@, num_text(whole(s.n_gpu as int))),
            entry("loc"@, quoted(s.loc@)),
        ],
    )
}

/// The columns of every server in one range, where `data` has the rows that were read.
pub open spec fn data_entries(
    active: Seq<&Server>,
    data: Seq<Vec<Row>>,
    from: u32,
    step: u32,
    n: nat,
) -> Seq<Seq<char>> {
    Seq::new(
        active.len(),
        |i: int| entry(active[i].name@, columns_text(slot_rows(data[i]@, from, step, n))),
    )
}

/// One range of the statistics.
pub open spec fn range_text(
    active: Seq<&Server>,
    data: Seq<Vec<Row>>,
    span: u32,
    slots: usize,
    now: u32,
) -> Seq<char> {
    let from = start_of(span, slots, now);
    let step = step_of(span, slots);
    let n = slots_of(slots);
    object_text(
        seq![
            entry("from"@, num_text(whole(from as int))),
            entry("step"@, num_text(whole(step as int))),
            entry("n"@, num_text(whole(n as int))),
            entry("data"@, object_text(data_entries(active, data, from, step, n as nat))),
        ],
    )
}

/// The ranges of the statistics.
pub open spec fn range_entries(
    active: Seq<&Server>,
    ranges: Seq<(&str, u32, usize)>,
    data: Seq<Vec<Vec<Row>>>,
    now: u32,
) -> Seq<Seq<char>> {
    Seq::new(
        ranges.len(),
        |i: int|
            entry(ranges[i].0@, range_text(active, data[i]@, ranges[i].1, ranges[i].2, now)),
    )
}

/// The statistics, as the page reads them.
pub open spec fn stats_text(
    active: Seq<&Server>,
    ranges: Seq<(&str, u32, usize)>,
    data: Seq<Vec<Vec<Row>>>,
    now: u32,
) -> Seq<char> {
    object_text(
        seq![
            entry("now"@, num_text(whole(now as int))),
            entry("servers"@, array_text(active.map_values(|s: &Server| about(*s)))),
            entry("ranges"@, object_text(range_entries(active, ranges, data, now))),
        ],
    )
}

fn column(r: &Row, c: Column) -> (v: u64)
    ensures
        v == column_of(*r, c),
{
    match c {
        Column::Watts => r.watts as u64,
        Column::UtilAvg => r.util_avg as u64,
        Column::UtilMax => r.util_max as u64,
        Column::TempMax => r.temp_max as u64,
        Column::Busy => r.busy as u64,
        Column::Gpus => r.gpus as u64,
    }
}

fn write_column(w: &mut Writer, rows: &Vec<Row>, c: Column)
    ensures
        final(w).buf@ == old(w).buf@ + array_text(column_texts(rows@, c)),
{
    let ghost b0 = w.buf@;
    let ghost all = column_texts(rows@, c);
    w.raw("[");
    let ghost b = w.buf@;
    let mut i: usize = 0;
    assert(b + listed(all.take(0)) =~= b);
    while i < rows.len()
        invariant
            i <= rows@.len(),
            all == column_texts(rows@, c),
            w.buf@ == b + listed(all.take(i as int)),
        decreases rows@.len() - i,
    {
        let ghost ts = all.take(i as int);
        w.comma(i == 0);
        w.num(Double::from_u64(column(&rows[i], c)));
        proof {
            let t = num_text(whole(column_of(rows@[i as int], c)));
            lemma_listed_push(ts, t);
            assert(all.take(i + 1) =~= ts.push(t));
            assert(w.buf@ =~= b + listed(ts.push(t)));
        }
        i = i + 1;
    }
    w.raw("]");
    proof {
        reveal_strlit("[");
        reveal_strlit("]");
        assert(all.take(all.len() as int) =~= all);
        assert(w.buf@ =~= b0 + array_text(all));
    }
}

fn column_entry(
    w: &mut Writer,
    Ghost(b): Ghost<Seq<char>>,
    Ghost(ts): Ghost<Seq<Seq<char>>>,
    first: bool,
    k: &str,
    rows: &Vec<Row>,
    c: Column,
)
    requires
        old(w).buf@ == b + listed(ts),
        first == (ts.len() == 0),
    ensures
        final(w).buf@ == b + listed(ts.push(entry(k@, array_text(column_texts(rows@, c))))),
{
    w.comma(first);
    w.key(k);
    write_column(w, rows, c);
    proof {
        let t = entry(k@, array_text(column_texts(rows@, c)));
        lemma_listed_push(ts, t);
        assert(w.buf@ =~= b + listed(ts.push(t)));
    }
}

fn write_columns(w: &mut Writer, rows: &Vec<Row>)
    ensures
        final(w).buf@ == old(w).buf@ + columns_text(rows@),
{
    let ghost b0 = w.buf@;
    w.raw("{");
    let ghost b = w.buf@;
    let ghost mut ts: Seq<Seq<char>> = seq![];
    assert(b + listed(ts) =~= b);
    column_entry(w, Ghost(b), Ghost(ts), true, "w", rows, Column::Watts);
    proof {
        ts = ts.push(entry("w"@, array_text(column_texts(rows@, Column::Watts))));
    }
    column_entry(w, Ghost(b), Ghost(ts), false, "u", rows, Column::UtilAvg);
    proof {
        ts = ts.push(entry("u"@, array_text(column_texts(rows@, Column::UtilAvg))));
    }
    column_entry(w, Ghost(b), Ghost(ts), false, "x", rows, Column::UtilMax);
    proof {
        ts = ts.push(entry("x"@, array_text(column_texts(rows@, Column::UtilMax))));
    }
    column_entry(w, Ghost(b), Ghost(ts), false, "t", rows, Column::TempMax);
    proof {
        ts = ts.push(entry("t"@, array_text(column_texts(rows@, Column::TempMax))));
    }
    column_entry(w, Ghost(b), Ghost(ts), false, "b", rows, Column::Busy);
    proof {
        ts = ts.push(entry("b"@, array_text(column_texts(rows@, Column::Busy))));
    }
    column_entry(w, Ghost(b), Ghost(ts), false, "g", rows, Column::Gpus);
    proof {
        ts = ts.push(entry("g"@, array_text(column_texts(rows@, Column::Gpus))));
    }
    w.raw("}");
    proof {
        reveal_strlit("{");
        reveal_strlit("}");
        assert(ts =~= seq![
            entry("w"@, array_text(column_texts(rows@, Column::Watts))),
            entry("u"@, array_text(column_texts(rows@, Column::UtilAvg))),
            entry("x"@, array_text(column_texts(rows@, Column::UtilMax))),
            entry("t"@, array_text(column_texts(rows@, Column::TempMax))),
            entry("b"@, array_text(column_texts(rows@, Column::Busy))),
            entry("g"@, array_text(column_texts(rows@, Column::Gpus))),
        ]);
        assert(w.buf@ =~= b0 + object_text(ts));
    }
}

fn write_about(w: &mut Writer, s: &Server)
    ensures
        final(w).buf@ == old(w).buf@ + about(*s),
{
    let ghost b0 = w.buf@;
    w.raw("{");
    let ghost b = w.buf@;
    let ghost mut ts: Seq<Seq<char>> = seq![];
    assert(b + listed(ts) =~= b);
    w.str_entry(Ghost(b), Ghost(ts), true, "name", s.name.as_str());
    proof {
        ts = ts.push(entry("name"@, quoted(s.name@)));
    }
    w.str_entry(Ghost(b), Ghost(ts), false, "gpu", s.gpu_model.as_str());
    proof {
        ts = ts.push(entry("gpu"@, quoted(s.gpu_model@)));
    }
    w.num_entry(Ghost(b), Ghost(ts), false, "n_gpu", Double::from_u64(s.n_gpu as u64));
    proof {
        ts = ts.push(entry("n_gpu"@, num_text(whole(s.n_gpu as int))));
    }
    w.str_entry(Ghost(b), Ghost(ts), false, "loc", s.loc.as_str());
    proof {
        ts = ts.push(entry("loc"@, quoted(s.loc@)));
    }
    w.raw("}");
    proof {
        reveal_strlit("{");
        reveal_strlit("}");
        assert(ts =~= seq![
            entry("name"@, quoted(s.name@)),
            entry("gpu"@, quoted(s.gpu_model@)),
            entry("n_gpu"@, num_text(whole(s.n_gpu as int))),
            entry("loc"@, quoted(s.loc@)),
        ]);
        assert(w.buf@ =~= b0 + object_text(ts));
    }
}

fn write_abouts(w: &mut Writer, active: &[&Server])
    ensures
        final(w).buf@ == old(w).buf@ + array_text(active@.map_values(|s: &Server| about(*s))),
{
    let ghost b0 = w.buf@;
    let ghost all = active@.map_values(|s: &Server| about(*s));
    w.raw("[");
    let ghost b = w.buf@;
    let mut i: usize = 0;
    assert(b + listed(all.take(0)) =~= b);
    while i < active.len()
        invariant
            i <= active@.len(),
            all == active@.map_values(|s: &Server| about(*s)),
            w.buf@ == b + listed(all.take(i as int)),
        decreases active@.len() - i,
    {
        let ghost ts = all.take(i as int);
        w.comma(i == 0);
        write_about(w, active[i]);
        proof {
            let t = about(*active@[i as int]);
            lemma_listed_push(ts, t);
            assert(all.take(i + 1) =~= ts.push(t));
            assert(w.buf@ =~= b + listed(ts.push(t)));
        }
        i = i + 1;
    }
    w.raw("]");
    proof {
        reveal_strlit("[");
        reveal_strlit("]");
        assert(all.take(all.len() as int) =~= all);
        assert(w.buf@ =~= b0 + array_text(all));
    }
}

fn write_data(
    w: &mut Writer,
    active: &[&Server],
    data: &Vec<Vec<Row>>,
    from: u32,
    step: u32,
    n: usize,
)
    requires
        data@.len() == active@.len(),
        step > 0,
    ensures
        final(w).buf@ == old(w).buf@ + object_text(
            data_entries(active@, data@, from, step, n as nat),
        ),
{
    let ghost b0 = w.buf@;
    let ghost all = data_entries(active@, data@, from, step, n as nat);
    w.raw("{");
    let ghost b = w.buf@;
    let mut i: usize = 0;
    assert(b + listed(all.take(0)) =~= b);
    while i < active.len()
        invariant
            i <= active@.len(),
            data@.len() == active@.len(),
            step > 0,
            all == data_entries(active@, data@, from, step, n as nat),
            w.buf@ == b + listed(all.take(i as int)),
        decreases active@.len() - i,
    {
        let ghost ts = all.take(i as int);
        let rows = grid(data[i].as_slice(), from, step, n);
        w.comma(i == 0);
        w.key(active[i].name.as_str());
        write_columns(w, &rows);
        proof {
            assert(rows@ =~= slot_rows(data@[i as int]@, from, step, n as nat));
            let t = all[i as int];
            lemma_listed_push(ts, t);
            assert(all.take(i + 1) =~= ts.push(t));
            assert(w.buf@ =~= b + listed(ts.push(t)));
        }
        i = i + 1;
    }
    w.raw("}");
    proof {
        reveal_strlit("{");
        reveal_strlit("}");
        assert(all.take(all.len() as int) =~= all);
        assert(w.buf@ =~= b0 + object_text(all));
    }
}

fn write_range(
    w: &mut Writer,
    active: &[&Server],
    data: &Vec<Vec<Row>>,
    span: u32,
    slots: usize,
    now: u32,
)
    requires
        data@.len() == active@.len(),
        divides(slots),
    ensures
        final(w).buf@ == old(w).buf@ + range_text(active@, data@, span, slots, now),
{
    let (from, step, n) = grid_of(span, slots, now);
    let ghost b0 = w.buf@;
    w.raw("{");
    let ghost b = w.buf@;
    let ghost mut ts: Seq<Seq<char>> = seq![];
    assert(b + listed(ts) =~= b);
    w.num_entry(Ghost(b), Ghost(ts), true, "from", Double::from_u64(from as u64));
    proof {
        ts = ts.push(entry("from"@, num_text(whole(from as int))));
    }
    w.num_entry(Ghost(b), Ghost(ts), false, "step", Double::from_u64(step as u64));
    proof {
        ts = ts.push(entry("step"@, num_text(whole(step as int))));
    }
    w.num_entry(Ghost(b), Ghost(ts), false, "n", Double::from_u64(n as u64));
    proof {
        ts = ts.push(entry("n"@, num_text(whole(n as int))));
    }
    w.comma(false);
    w.key("data");
    write_data(w, active, data, from, step, n);
    proof {
        let x = object_text(data_entries(active@, data@, from, step, n as nat));
        lemma_entry(b, ts, "data"@, x);
        ts = ts.push(entry("data"@, x));
        assert(ts =~= seq![
            entry("from"@, num_text(whole(from as int))),
            entry("step"@, num_text(whole(step as int))),
            entry("n"@, num_text(whole(n as int))),
            entry("data"@, x),
        ]);
    }
    w.raw("}");
    proof {
        reveal_strlit("{");
        reveal_strlit("}");
        assert(w.buf@ =~= b0 + object_text(ts));
    }
}

fn write_ranges(
    w: &mut Writer,
    active: &[&Server],
    ranges: &[(&str, u32, usize)],
    data: &Vec<Vec<Vec<Row>>>,
    now: u32,
)
    requires
        is_data(active@, ranges@, data@),
    ensures
        final(w).buf@ == old(w).buf@ + object_text(range_entries(active@, ranges@, data@, now)),
{
    let ghost b0 = w.buf@;
    let ghost all = range_entries(active@, ranges@, data@, now);
    w.raw("{");
    let ghost b = w.buf@;
    let mut i: usize = 0;
    assert(b + listed(all.take(0)) =~= b);
    while i < ranges.len()
        invariant
            i <= ranges@.len(),
            is_data(active@, ranges@, data@),
            all == range_entries(active@, ranges@, data@, now),
            w.buf@ == b + listed(all.take(i as int)),
        decreases ranges@.len() - i,
    {
        let ghost ts = all.take(i as int);
        let (label, span, slots): (&str, u32, usize) = ranges[i];
        assert(data@[i as int]@.len() == active@.len() && divides(ranges@[i as int].2));
        w.comma(i == 0);
        w.key(label);
        write_range(w, active, &data[i], span, slots, now);
        proof {
            let t = all[i as int];
            lemma_listed_push(ts, t);
            assert(all.take(i + 1) =~= ts.push(t));
            assert(w.buf@ =~= b + listed(ts.push(t)));
        }
        i = i + 1;
    }
    w.raw("}");
    proof {
        reveal_strlit("{");
        reveal_strlit("}");
        assert(all.take(all.len() as int) =~= all);
        assert(w.buf@ =~= b0 + object_text(all));
    }
}

/// Whether `data` has rows for each range and each server, and each range can be cut up.
pub open spec fn is_data(
    active: Seq<&Server>,
    ranges: Seq<(&str, u32, usize)>,
    data: Seq<Vec<Vec<Row>>>,
) -> bool {
    &&& data.len() == ranges.len()
    &&& forall|i: int|
        0 <= i < ranges.len() ==> (#[trigger] data[i])@.len() == active.len() && divides(
            ranges[i].2,
        )
}

/// The statistics, as the page reads them, where `data` has the rows that were read for each
/// range and each server.
pub fn write_stats(
    active: &[&Server],
    ranges: &[(&str, u32, usize)],
    data: &Vec<Vec<Vec<Row>>>,
    now: u32,
) -> (r: String)
    requires
        is_data(active@, ranges@, data@),
    ensures
        r@ == stats_text(active@, ranges@, data@, now),
{
    let mut w = Writer::new();
    w.raw("{");
    let ghost b = w.buf@;
    let ghost mut ts: Seq<Seq<char>> = seq![];
    assert(b + listed(ts) =~= b);
    w.num_entry(Ghost(b), Ghost(ts), true, "now", Double::from_u64(now as u64));
    proof {
        ts = ts.push(entry("now"@, num_text(whole(now as int))));
    }
    w.comma(false);
    w.key("servers");
    write_abouts(&mut w, active);
    proof {
        let x = array_text(active@.map_values(|s: &Server| about(*s)));
        lemma_entry(b, ts, "servers"@, x);
        ts = ts.push(entry("servers"@, x));
    }
    w.comma(false);
    w.key("ranges");
    write_ranges(&mut w, active, ranges, data, now);
    proof {
        let x = object_text(range_entries(active@, ranges@, data@, now));
        lemma_entry(b, ts, "ranges"@, x);
        ts = ts.push(entry("ranges"@, x));
        assert(ts =~= seq![
            entry("now"@, num_text(whole(now as int))),
            entry("servers"@, array_text(active@.map_values(|s: &Server| about(*s)))),
            entry("ranges"@, x),
        ]);
    }
    w.raw("}");
    proof {
        reveal_strlit("{");
        reveal_strlit("}");
        assert(w.buf@ =~= object_text(ts));
    }
    w.buf
}

impl Collector {
    /// The ranges that the page offers, where the oldest row is of that time.
    pub fn stats_ranges(earliest: Option<u32>, now: u32) -> (r: Vec<(&'static str, u32, usize)>)
        ensures
            range_views(r@) == ranges_from(earliest, now),
    {
        let span: u32 = match earliest {
            Some(e) => if now > e && now - e > 3600 {
                now - e
            } else {
                3600
            },
            None => 3600,
        };
        let mut v: Vec<(&'static str, u32, usize)> = Vec::new();
        v.push(("6h", 21_600, 180));
        v.push(("24h", 86_400, 144));
        v.push(("7d", 604_800, 168));
        v.push(("all", span, 200));
        assert(range_views(v@) =~= ranges_from(earliest, now));
        v
    }

    /// The statistics, as the page reads them, where `data` has the rows that were read for
    /// each range and each active server.
    pub fn stats_json(
        &self,
        ranges: &[(&str, u32, usize)],
        data: &Vec<Vec<Vec<Row>>>,
        now: u32,
    ) -> (r: Option<String>)
        ensures
            exists|p: Seq<int>, active: Seq<&Server>|
                #![trigger is_active_order(self.cfg.servers@, p), is_data(active, ranges@, data@)]
                is_active_order(self.cfg.servers@, p) && active.len() == p.len() && (forall|i: int|
                    0 <= i < p.len() ==> *#[trigger] active[i] == self.cfg.servers@[p[i]]) && (
                match r {
                    Some(t) => is_data(active, ranges@, data@) && t@ == stats_text(
                        active,
                        ranges@,
                        data@,
                        now,
                    ),
                    None => !is_data(active, ranges@, data@),
                }),
    {
        let active = self.cfg.active();
        if fits(active.as_slice(), ranges, data) {
            Some(write_stats(active.as_slice(), ranges, data, now))
        } else {
            None
        }
    }
}

fn fits(active: &[&Server], ranges: &[(&str, u32, usize)], data: &Vec<Vec<Vec<Row>>>) -> (r: bool)
    ensures
        r == is_data(active@, ranges@, data@),
{
    if data.len() != ranges.len() {
        return false;
    }
    let mut i: usize = 0;
    while i < ranges.len()
        invariant
            i <= ranges@.len(),
            data@.len() == ranges@.len(),
            forall|k: int|
                0 <= k < i ==> (#[trigger] data@[k])@.len() == active@.len() && divides(
                    ranges@[k].2,
                ),
        decreases ranges@.len() - i,
    {
        let (label, span, slots): (&str, u32, usize) = ranges[i];
        let n: usize = if slots == 0 {
            1
        } else {
            slots
        };
        if data[i].len() != active.len() || n as u64 % 0x1_0000_0000 == 0 {
            assert(!(data@[i as int]@.len() == active@.len() && divides(ranges@[i as int].2)));
            return false;
        }
        let ghost at = i as int;
        assert(data@[at]@.len() == active@.len() && divides(ranges@[at].2));
        i = i + 1;
        proof {
            assert forall|k: int| 0 <= k < i implies (#[trigger] data@[k])@.len()
                == active@.len() && divides(ranges@[k].2) by {
                if k < at {
                    assert(data@[k]@.len() == active@.len());
                } else {
                    assert(k == at);
                }
            }
        }
    }
    true
}

} // verus!
