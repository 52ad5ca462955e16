//! Time-series store for the statistics tab.
//!
//! One file per server and day, of records of 16 bytes, little-endian:
//!
//! ```text
//! u32  ts        unix seconds
//! u16  watts     rounded total draw
//! u16  watt_cap  summed configured power limit
//! u8   util_avg  mean utilisation, 0..100
//! u8   util_max  0..100
//! u8   temp_max  degrees C
//! u8   gpus      cards reporting
//! u8   busy      cards busy
//! u8   (zero)
//! u16  mem_pct   thousandths of total VRAM in use, 0..1000
//! ```
//!
//! The width is fixed, so a range is a bisection and a read.

use vstd::prelude::*;
use crate::decimal::{all_digits, end_of_digits, lemma_digits_end, number};
use crate::power::{day_of, day_text, days_formula, days_from_civil, floor_div, is_day_text};
use crate::table::{lemma_put_lookup, lookup, put, Table};
use crate::text::{before, chars_of, eq_str, is_digit, is_str, own, part, str_before, string_of};

verus! {

broadcast use vstd::string::group_string_axioms;

/// The number of bytes in a record.
pub const REC: usize = 16;

/// What a server did over one period.
#[derive(Debug, Clone, Copy, PartialEq, Eq, Structural, Default)]
pub struct Row {
    pub ts: u32,
    pub watts: u16,
    pub watt_cap: u16,
    pub util_avg: u8,
    pub util_max: u8,
    pub temp_max: u8,
    pub gpus: u8,
    pub busy: u8,
    pub mem_pct: u16,
}

/// Byte `i` of a number, the lowest first.
pub open spec fn byte(n: nat, i: nat) -> u8
    decreases i,
{
    if i == 0 {
        (n % 256) as u8
    } else {
        byte(n / 256, (i - 1) as nat)
    }
}

/// The record of a row.
pub open spec fn record(r: Row) -> Seq<u8> {
    seq![
        byte(r.ts as nat, 0),
        byte(r.ts as nat, 1),
        byte(r.ts as nat, 2),
        byte(r.ts as nat, 3),
        byte(r.watts as nat, 0),
        byte(r.watts as nat, 1),
        byte(r.watt_cap as nat, 0),
        byte(r.watt_cap as nat, 1),
        r.util_avg,
        r.util_max,
        r.temp_max,
        r.gpus,
        r.busy,
        0,
        byte(r.mem_pct as nat, 0),
        byte(r.mem_pct as nat, 1),
    ]
}

/// The row of the record that starts at `i`.
pub open spec fn row_at(b: Seq<u8>, i: int) -> Row {
    Row {
        ts: (b[i] + b[i + 1] * 0x100 + b[i + 2] * 0x1_0000 + b[i + 3] * 0x100_0000) as u32,
        watts: (b[i + 4] + b[i + 5] * 0x100) as u16,
        watt_cap: (b[i + 6] + b[i + 7] * 0x100) as u16,
        util_avg: b[i + 8],
        util_max: b[i + 9],
        temp_max: b[i + 10],
        gpus: b[i + 11],
        busy: b[i + 12],
        mem_pct: (b[i + 14] + b[i + 15] * 0x100) as u16,
    }
}

proof fn lemma_bytes(n: nat)
    ensures
        byte(n, 0) == n % 256,
        byte(n, 1) == n / 256 % 256,
        byte(n, 2) == n / 0x1_0000 % 256,
        byte(n, 3) == n / 0x100_0000 % 256,
{
    reveal_with_fuel(byte, 5);
}

/// A row is read back from its record as it was.
pub proof fn lemma_record_round_trip(r: Row, b: Seq<u8>, i: int)
    requires
        0 <= i,
        i + REC <= b.len(),
        b.subrange(i, i + REC) == record(r),
    ensures
        row_at(b, i) == r,
{
    let s = b.subrange(i, i + REC);
    assert forall|k: int| 0 <= k < 16 implies b[i + k] == #[trigger] s[k] by {}
    assert(b[i] == s[0]);
    lemma_bytes(r.ts as nat);
    lemma_bytes(r.watts as nat);
    lemma_bytes(r.watt_cap as nat);
    lemma_bytes(r.mem_pct as nat);
    assert(s[0] == record(r)[0] && s[1] == record(r)[1] && s[2] == record(r)[2] && s[3] == record(
        r,
    )[3]);
    assert(s[4] == record(r)[4] && s[5] == record(r)[5] && s[6] == record(r)[6] && s[7] == record(
        r,
    )[7]);
    assert(s[8] == record(r)[8] && s[9] == record(r)[9] && s[10] == record(r)[10] && s[11]
        == record(r)[11] && s[12] == record(r)[12]);
    assert(s[14] == record(r)[14] && s[15] == record(r)[15]);
}

impl Row {
    /// The record of this row.
    pub fn encode(&self) -> (r: [u8; REC])
        ensures
            r@ == record(*self),
    {
        proof {
            lemma_bytes(self.ts as nat);
            lemma_bytes(self.watts as nat);
            lemma_bytes(self.watt_cap as nat);
            lemma_bytes(self.mem_pct as nat);
        }
        let r: [u8; REC] = [
            (self.ts % 256) as u8,
            (self.ts / 256 % 256) as u8,
            (self.ts / 0x1_0000 % 256) as u8,
            (self.ts / 0x100_0000 % 256) as u8,
            (self.watts % 256) as u8,
            (self.watts / 256 % 256) as u8,
            (self.watt_cap % 256) as u8,
            (self.watt_cap / 256 % 256) as u8,
            self.util_avg,
            self.util_max,
            self.temp_max,
            self.gpus,
            self.busy,
            0,
            (self.mem_pct % 256) as u8,
            (self.mem_pct / 256 % 256) as u8,
        ];
        assert(r@ =~= record(*self));
        r
    }

    /// The row of a record, where there are bytes enough for one.
    pub fn decode(b: &[u8]) -> (r: Option<Row>)
        ensures
            match r {
                Some(x) => b@.len() >= REC && x == row_at(b@, 0),
                None => b@.len() < REC,
            },
    {
        if b.len() < REC {
            return None;
        }
        Some(
            Row {
                ts: b[0] as u32 + b[1] as u32 * 0x100 + b[2] as u32 * 0x1_0000 + b[3] as u32
                    * 0x100_0000,
                watts: b[4] as u16 + b[5] as u16 * 0x100,
                watt_cap: b[6] as u16 + b[7] as u16 * 0x100,
                util_avg: b[8],
                util_max: b[9],
                temp_max: b[10],
                gpus: b[11],
                busy: b[12],
                mem_pct: b[14] as u16 + b[15] as u16 * 0x100,
            },
        )
    }
}

// ---------------------------------------------------------------- downsampling

/// The fields of a row that are put together in a slot.
pub ghost enum Field {
    Watts,
    WattCap,
    UtilAvg,
    UtilMax,
    TempMax,
    Gpus,
    Busy,
    MemPct,
}

/// A field of a row.
pub open spec fn field(r: Row, f: Field) -> nat {
    match f {
        Field::Watts => r.watts as nat,
        Field::WattCap => r.watt_cap as nat,
        Field::UtilAvg => r.util_avg as nat,
        Field::UtilMax => r.util_max as nat,
        Field::TempMax => r.temp_max as nat,
        Field::Gpus => r.gpus as nat,
        Field::Busy => r.busy as nat,
        Field::MemPct => r.mem_pct as nat,
    }
}

/// Whether a row falls in slot `i`.
pub open spec fn in_slot(r: Row, from: u32, step: u32, i: int) -> bool {
    r.ts >= from && (r.ts - from) / (step as int) == i
}

/// How many of the first `k` rows fall in slot `i`.
pub open spec fn slot_count(rows: Seq<Row>, from: u32, step: u32, i: int, k: int) -> nat
    decreases k,
{
    if k <= 0 {
        0
    } else {
        slot_count(rows, from, step, i, k - 1) + if in_slot(rows[k - 1], from, step, i) {
            1nat
        } else {
            0
        }
    }
}

/// The sum of a field over the first `k` rows that fall in slot `i`.
pub open spec fn slot_sum(rows: Seq<Row>, from: u32, step: u32, i: int, k: int, f: Field) -> nat
    decreases k,
{
    if k <= 0 {
        0
    } else {
        slot_sum(rows, from, step, i, k - 1, f) + if in_slot(rows[k - 1], from, step, i) {
            field(rows[k - 1], f)
        } else {
            0
        }
    }
}

/// The largest value of a field over the first `k` rows that fall in slot `i`.
pub open spec fn slot_max(rows: Seq<Row>, from: u32, step: u32, i: int, k: int, f: Field) -> nat
    decreases k,
{
    if k <= 0 {
        0
    } else {
        let m = slot_max(rows, from, step, i, k - 1, f);
        if in_slot(rows[k - 1], from, step, i) && field(rows[k - 1], f) > m {
            field(rows[k - 1], f)
        } else {
            m
        }
    }
}

/// When slot `i` starts. The count of seconds has 32 bits.
pub open spec fn slot_ts(from: u32, step: u32, i: int) -> u32 {
    ((from + i * step) % 0x1_0000_0000) as u32
}

/// Slot `i` of the grid: means of what is averaged, the largest of what is a peak, and zeros
/// where no row falls in the slot.
pub open spec fn slot_row(rows: Seq<Row>, from: u32, step: u32, i: int) -> Row {
    let k = rows.len() as int;
    let c = slot_count(rows, from, step, i, k);
    if c == 0 {
        Row {
            ts: slot_ts(from, step, i),
            watts: 0,
            watt_cap: 0,
            util_avg: 0,
            util_max: 0,
            temp_max: 0,
            gpus: 0,
            busy: 0,
            mem_pct: 0,
        }
    } else {
        Row {
            ts: slot_ts(from, step, i),
            watts: (slot_sum(rows, from, step, i, k, Field::Watts) / c) as u16,
            watt_cap: slot_max(rows, from, step, i, k, Field::WattCap) as u16,
            util_avg: (slot_sum(rows, from, step, i, k, Field::UtilAvg) / c) as u8,
            util_max: slot_max(rows, from, step, i, k, Field::UtilMax) as u8,
            temp_max: slot_max(rows, from, step, i, k, Field::TempMax) as u8,
            gpus: slot_max(rows, from, step, i, k, Field::Gpus) as u8,
            busy: ((slot_sum(rows, from, step, i, k, Field::Busy) + c / 2) / c) as u8,
            mem_pct: (slot_sum(rows, from, step, i, k, Field::MemPct) / c) as u16,
        }
    }
}

/// What has come together in a slot.
struct Slot {
    count: u128,
    watts: u128,
    util_avg: u128,
    busy: u128,
    mem_pct: u128,
    watt_cap: u16,
    util_max: u8,
    temp_max: u8,
    gpus: u8,
}

/// Whether `s` holds what the first `k` rows put in slot `i`.
spec fn is_slot(s: Slot, rows: Seq<Row>, from: u32, step: u32, i: int, k: int) -> bool {
    &&& s.count == slot_count(rows, from, step, i, k)
    &&& s.watts == slot_sum(rows, from, step, i, k, Field::Watts)
    &&& s.util_avg == slot_sum(rows, from, step, i, k, Field::UtilAvg)
    &&& s.busy == slot_sum(rows, from, step, i, k, Field::Busy)
    &&& s.mem_pct == slot_sum(rows, from, step, i, k, Field::MemPct)
    &&& s.watt_cap == slot_max(rows, from, step, i, k, Field::WattCap)
    &&& s.util_max == slot_max(rows, from, step, i, k, Field::UtilMax)
    &&& s.temp_max == slot_max(rows, from, step, i, k, Field::TempMax)
    &&& s.gpus == slot_max(rows, from, step, i, k, Field::Gpus)
    &&& s.count <= k
    &&& s.watts <= 0xffff * s.count
    &&& s.util_avg <= 0xff * s.count
    &&& s.busy <= 0xff * s.count
    &&& s.mem_pct <= 0xffff * s.count
}

impl Slot {
    fn empty() -> (r: Slot)
        ensures
            forall|rows: Seq<Row>, from: u32, step: u32, i: int|
                #[trigger] is_slot(r, rows, from, step, i, 0),
    {
        Slot {
            count: 0,
            watts: 0,
            util_avg: 0,
            busy: 0,
            mem_pct: 0,
            watt_cap: 0,
            util_max: 0,
            temp_max: 0,
            gpus: 0,
        }
    }

    fn take_in(
        &mut self,
        r: &Row,
        Ghost(rows): Ghost<Seq<Row>>,
        Ghost(from): Ghost<u32>,
        Ghost(step): Ghost<u32>,
        Ghost(i): Ghost<int>,
        Ghost(k): Ghost<int>,
    )
        requires
            is_slot(*old(self), rows, from, step, i, k),
            0 <= k < rows.len() <= usize::MAX,
            rows[k] == *r,
            in_slot(*r, from, step, i),
        ensures
            is_slot(*final(self), rows, from, step, i, k + 1),
    {
        self.count = self.count + 1;
        self.watts = self.watts + r.watts as u128;
        self.util_avg = self.util_avg + r.util_avg as u128;
        self.busy = self.busy + r.busy as u128;
        self.mem_pct = self.mem_pct + r.mem_pct as u128;
        if r.watt_cap > self.watt_cap {
            self.watt_cap = r.watt_cap;
        }
        if r.util_max > self.util_max {
            self.util_max = r.util_max;
        }
        if r.temp_max > self.temp_max {
            self.temp_max = r.temp_max;
        }
        if r.gpus > self.gpus {
            self.gpus = r.gpus;
        }
    }

    fn row(
        &self,
        ts: u32,
        Ghost(rows): Ghost<Seq<Row>>,
        Ghost(from): Ghost<u32>,
        Ghost(step): Ghost<u32>,
        Ghost(i): Ghost<int>,
    ) -> (r: Row)
        requires
            is_slot(*self, rows, from, step, i, rows.len() as int),
            rows.len() <= usize::MAX,
            ts == slot_ts(from, step, i),
        ensures
            r == slot_row(rows, from, step, i),
    {
        let c: u128 = self.count;
        if c == 0 {
            return Row {
                ts,
                watts: 0,
                watt_cap: 0,
                util_avg: 0,
                util_max: 0,
                temp_max: 0,
                gpus: 0,
                busy: 0,
                mem_pct: 0,
            };
        }
        proof {
            lemma_mean(self.watts as int, c as int, 0xffff);
            lemma_mean(self.util_avg as int, c as int, 0xff);
            lemma_mean(self.mem_pct as int, c as int, 0xffff);
            lemma_rounded_mean(self.busy as int, c as int, 0xff);
        }
        Row {
            ts,
            watts: (self.watts / c) as u16,
            watt_cap: self.watt_cap,
            util_avg: (self.util_avg / c) as u8,
            util_max: self.util_max,
            temp_max: self.temp_max,
            gpus: self.gpus,
            busy: ((self.busy + c / 2) / c) as u8,
            mem_pct: (self.mem_pct / c) as u16,
        }
    }
}

proof fn lemma_mean(s: int, c: int, m: int)
    requires
        0 <= s <= m * c,
        c > 0,
    ensures
        0 <= s / c <= m,
{
    assert(0 <= s / c <= m) by (nonlinear_arith)
        requires
            0 <= s <= m * c,
            c > 0,
    ;
}

proof fn lemma_rounded_mean(s: int, c: int, m: int)
    requires
        0 <= s <= m * c,
        c > 0,
    ensures
        0 <= (s + c / 2) / c <= m,
{
    let h = c / 2;
    assert(0 <= (s + h) / c <= m) by (nonlinear_arith)
        requires
            0 <= s <= m * c,
            0 <= h < c,
            c > 0,
    ;
}

/// Puts rows on a fixed grid of time: slot `i` covers `step` seconds from `from + i * step` on,
/// whatever the rows are, so the slots of two servers are the same moments.
pub fn grid(rows: &[Row], from: u32, step: u32, n: usize) -> (r: Vec<Row>)
    ensures
        r@.len() == n,
        forall|i: int|
            0 <= i < n ==> #[trigger] r@[i] == slot_row(
                rows@,
                from,
                if step == 0 {
                    1
                } else {
                    step
                },
                i,
            ),
{
    let step: u32 = if step == 0 {
        1
    } else {
        step
    };
    let mut slots: Vec<Slot> = Vec::new();
    let mut i: usize = 0;
    while i < n
        invariant
            i <= n,
            slots@.len() == i,
            forall|j: int| 0 <= j < i ==> #[trigger] is_slot(slots@[j], rows@, from, step, j, 0),
        decreases n - i,
    {
        slots.push(Slot::empty());
        i = i + 1;
    }
    let mut k: usize = 0;
    let len: usize = rows.len();
    while k < len
        invariant
            k <= len == rows@.len(),
            slots@.len() == n,
            step > 0,
            forall|j: int|
                0 <= j < n ==> #[trigger] is_slot(slots@[j], rows@, from, step, j, k as int),
        decreases len - k,
    {
        let r: Row = rows[k];
        let ghost held = slots@;
        if r.ts >= from {
            let at: u32 = (r.ts - from) / step;
            if (at as u64) < n as u64 {
                let at: usize = at as usize;
                assert(is_slot(slots@[at as int], rows@, from, step, at as int, k as int));
                slots[at].take_in(
                    &r,
                    Ghost(rows@),
                    Ghost(from),
                    Ghost(step),
                    Ghost(at as int),
                    Ghost(k as int),
                );
            }
        }
        proof {
            assert forall|j: int| 0 <= j < n implies #[trigger] is_slot(
                slots@[j],
                rows@,
                from,
                step,
                j,
                k + 1,
            ) by {
                assert(is_slot(held[j], rows@, from, step, j, k as int));
            }
        }
        k = k + 1;
    }
    let mut out: Vec<Row> = Vec::new();
    let mut i: usize = 0;
    while i < n
        invariant
            i <= n,
            k == len == rows@.len(),
            slots@.len() == n,
            out@.len() == i,
            forall|j: int|
                0 <= j < n ==> #[trigger] is_slot(slots@[j], rows@, from, step, j, k as int),
            forall|j: int| 0 <= j < i ==> #[trigger] out@[j] == slot_row(rows@, from, step, j),
        decreases n - i,
    {
        assert(i * step <= 0xffff_ffff_ffff_ffff * 0xffff_ffff) by (nonlinear_arith)
            requires
                0 <= i <= 0xffff_ffff_ffff_ffff,
                0 <= step <= 0xffff_ffff,
        ;
        let ts: u32 = ((from as u128 + i as u128 * step as u128) % 0x1_0000_0000) as u32;
        assert(is_slot(slots@[i as int], rows@, from, step, i as int, k as int));
        out.push(
            slots[i].row(ts, Ghost(rows@), Ghost(from), Ghost(step), Ghost(i as int)),
        );
        i = i + 1;
    }
    out
}

pub(crate) proof fn lemma_slot_max(rows: Seq<Row>, from: u32, step: u32, i: int, k: int, f: Field)
    requires
        k <= rows.len(),
    ensures
        forall|j: int|
            0 <= j < k && in_slot(#[trigger] rows[j], from, step, i) ==> field(rows[j], f)
                <= slot_max(rows, from, step, i, k, f),
        slot_count(rows, from, step, i, k) > 0 ==> exists|j: int|
            0 <= j < k && in_slot(#[trigger] rows[j], from, step, i) && field(rows[j], f)
                == slot_max(rows, from, step, i, k, f),
        slot_count(rows, from, step, i, k) == 0 ==> slot_max(rows, from, step, i, k, f) == 0,
    decreases k,
{
    if k > 0 {
        lemma_slot_max(rows, from, step, i, k - 1, f);
        if in_slot(rows[k - 1], from, step, i) {
            if field(rows[k - 1], f) >= slot_max(rows, from, step, i, k - 1, f) {
                assert(in_slot(rows[k - 1], from, step, i) && field(rows[k - 1], f) == slot_max(
                    rows,
                    from,
                    step,
                    i,
                    k,
                    f,
                ));
            }
        }
    }
}

/// The peak of a slot is the largest peak of its rows, not a mean of them.
pub proof fn lemma_grid_keeps_peaks(rows: Seq<Row>, from: u32, step: u32, i: int, j: int)
    requires
        0 <= j < rows.len(),
        in_slot(rows[j], from, step, i),
    ensures
        rows[j].util_max <= slot_row(rows, from, step, i).util_max,
        rows[j].temp_max <= slot_row(rows, from, step, i).temp_max,
        exists|p: int|
            0 <= p < rows.len() && in_slot(#[trigger] rows[p], from, step, i) && rows[p].util_max
                == slot_row(rows, from, step, i).util_max,
        exists|p: int|
            0 <= p < rows.len() && in_slot(#[trigger] rows[p], from, step, i) && rows[p].temp_max
                == slot_row(rows, from, step, i).temp_max,
{
    let k = rows.len() as int;
    lemma_slot_occupied(rows, from, step, i, j, k);
    lemma_slot_max(rows, from, step, i, k, Field::UtilMax);
    lemma_slot_max(rows, from, step, i, k, Field::TempMax);
    let p = choose|p: int|
        0 <= p < k && in_slot(#[trigger] rows[p], from, step, i) && field(rows[p], Field::UtilMax)
            == slot_max(rows, from, step, i, k, Field::UtilMax);
    let q = choose|p: int|
        0 <= p < k && in_slot(#[trigger] rows[p], from, step, i) && field(rows[p], Field::TempMax)
            == slot_max(rows, from, step, i, k, Field::TempMax);
    assert(rows[p].util_max == slot_row(rows, from, step, i).util_max);
    assert(rows[q].temp_max == slot_row(rows, from, step, i).temp_max);
}

proof fn lemma_slot_occupied(rows: Seq<Row>, from: u32, step: u32, i: int, j: int, k: int)
    requires
        0 <= j < k <= rows.len(),
        in_slot(rows[j], from, step, i),
    ensures
        slot_count(rows, from, step, i, k) > 0,
    decreases k,
{
    if j < k - 1 {
        lemma_slot_occupied(rows, from, step, i, j, k - 1);
    }
}

/// The grid of every server has the same moments.
pub proof fn lemma_grid_aligned(a: Seq<Row>, b: Seq<Row>, from: u32, step: u32, i: int)
    ensures
        slot_row(a, from, step, i).ts == slot_row(b, from, step, i).ts,
{
}

// ---------------------------------------------------------------- reading a day

/// The row of record `i` of a file, where the file has that many records.
pub open spec fn row_of(f: Seq<u8>, i: int) -> Option<Row> {
    if 0 <= i && (i + 1) * REC <= f.len() {
        Some(row_at(f, i * REC))
    } else {
        None
    }
}

/// Where a bisection between `lo` and `hi` ends. It ends early where a record cannot be read.
pub open spec fn bisected(f: Seq<u8>, lo: int, hi: int, target: u32) -> int
    decreases hi - lo,
{
    if lo >= hi {
        lo
    } else {
        let mid = (lo + hi) / 2;
        match row_of(f, mid) {
            None => lo,
            Some(r) => if r.ts < target {
                bisected(f, mid + 1, hi, target)
            } else {
                bisected(f, lo, mid, target)
            },
        }
    }
}

/// The rows from `from` to `to` among every `stride`th record from `i` to `end`, up to the
/// first that is later than `to` or cannot be read.
pub open spec fn taken(f: Seq<u8>, i: int, stride: int, end: int, from: u32, to: u32) -> Seq<Row>
    decreases
            if i < end {
                end - i
            } else {
                0
            },
{
    if stride <= 0 || i >= end {
        seq![]
    } else {
        match row_of(f, i) {
            None => seq![],
            Some(r) => if r.ts > to {
                seq![]
            } else {
                (if r.ts >= from {
                    seq![r]
                } else {
                    seq![]
                }) + taken(f, i + stride, stride, end, from, to)
            },
        }
    }
}

/// The rows from `from` to `to` of a file that was seen to have `n` records, from record
/// `start` on. Without a stride all that the file has is read, with one the `n` records.
pub open spec fn rows_from(
    f: Seq<u8>,
    n: int,
    from: u32,
    to: u32,
    stride: int,
    start: int,
) -> Seq<Row> {
    if start >= n {
        seq![]
    } else if stride == 1 {
        taken(f, start, 1, f.len() as int / REC as int, from, to)
    } else {
        taken(f, start, stride, n, from, to)
    }
}

/// The rows from `from` to `to` of a file that was seen to have `n` records.
pub open spec fn day_rows(f: Seq<u8>, n: int, from: u32, to: u32, stride: int) -> Seq<Row> {
    rows_from(f, n, from, to, stride, bisected(f, 0, n, from))
}

/// What a scan needs next.
#[derive(Debug, Clone, Copy, PartialEq, Eq, Structural)]
pub enum Ask {
    /// The record of that number.
    Record(usize),
    /// Everything from the record of that number on.
    Rest(usize),
    /// Nothing: the scan is over.
    Nothing,
}

/// Whether `b` is what the file `f` gives to `a`: the bytes, or that they cannot be read.
pub open spec fn answers(a: Ask, b: Option<Seq<u8>>, f: Seq<u8>) -> bool {
    match a {
        Ask::Record(i) => match b {
            Some(b) => (i + 1) * REC <= f.len() && b == f.subrange(i * REC, (i + 1) * REC),
            None => row_of(f, i as int) is None,
        },
        Ask::Rest(i) => match b {
            Some(b) => i * REC <= f.len() && b == f.skip(i * REC),
            None => false,
        },
        Ask::Nothing => true,
    }
}

/// How far a scan is.
enum Phase {
    Bisect { lo: usize, hi: usize },
    Rest { i: usize },
    Step { i: usize },
    Over,
}

/// The scan of one file for the rows between two times: it says what it needs of the file, and
/// takes it.
pub struct Scan {
    phase: Phase,
    n: usize,
    from: u32,
    to: u32,
    stride: usize,
    out: Vec<Row>,
}

impl Scan {
    /// Whether the parts of this scan fit together.
    pub closed spec fn wf(self) -> bool {
        &&& self.stride > 0
        &&& self.n <= usize::MAX / 16
        &&& match self.phase {
            Phase::Bisect { lo, hi } => lo < hi <= self.n,
            Phase::Rest { i } => i < self.n && self.stride == 1,
            Phase::Step { i } => i < self.n && self.stride != 1,
            Phase::Over => true,
        }
    }

    /// The rows that this scan will have found in the end, if the file is `f`.
    pub closed spec fn will_find(self, f: Seq<u8>) -> Seq<Row> {
        match self.phase {
            Phase::Bisect { lo, hi } => self.out@ + rows_from(
                f,
                self.n as int,
                self.from,
                self.to,
                self.stride as int,
                bisected(f, lo as int, hi as int, self.from),
            ),
            Phase::Rest { i } => self.out@ + taken(
                f,
                i as int,
                1,
                f.len() as int / REC as int,
                self.from,
                self.to,
            ),
            Phase::Step { i } => self.out@ + taken(
                f,
                i as int,
                self.stride as int,
                self.n as int,
                self.from,
                self.to,
            ),
            Phase::Over => self.out@,
        }
    }

    /// What this scan needs next.
    pub closed spec fn asks(self) -> Ask {
        match self.phase {
            Phase::Bisect { lo, hi } => Ask::Record((lo + (hi - lo) / 2) as usize),
            Phase::Rest { i } => Ask::Rest(i),
            Phase::Step { i } => Ask::Record(i),
            Phase::Over => Ask::Nothing,
        }
    }

    /// A bound on how often this scan will still ask.
    pub closed spec fn left(self) -> nat {
        match self.phase {
            Phase::Bisect { lo, hi } => ((hi - lo) + self.n + 1) as nat,
            Phase::Rest { i } => 1,
            Phase::Step { i } => (self.n - i) as nat,
            Phase::Over => 0,
        }
    }

    /// The number of records that the file was seen to have.
    pub closed spec fn count(self) -> int {
        self.n as int
    }

    /// The rows found so far.
    pub closed spec fn found(self) -> Seq<Row> {
        self.out@
    }

    /// The scan of a file of `n` records for the rows from `from` to `to`, taking every
    /// `stride`th.
    pub fn new(n: usize, from: u32, to: u32, stride: usize) -> (r: Scan)
        requires
            n <= usize::MAX / 16,
            stride > 0,
        ensures
            r.wf(),
            r.count() == n,
            forall|f: Seq<u8>| #[trigger]
                r.will_find(f) == day_rows(f, n as int, from, to, stride as int),
    {
        let out: Vec<Row> = Vec::new();
        let phase = if n == 0 {
            Phase::Over
        } else {
            Phase::Bisect { lo: 0, hi: n }
        };
        let r = Scan { phase, n, from, to, stride, out };
        proof {
            assert forall|f: Seq<u8>| #[trigger]
                r.will_find(f) == day_rows(f, n as int, from, to, stride as int) by {
                assert(r.will_find(f) =~= day_rows(f, n as int, from, to, stride as int));
            }
        }
        r
    }

    /// What this scan needs next.
    pub fn next(&self) -> (r: Ask)
        requires
            self.wf(),
        ensures
            r == self.asks(),
            match r {
                Ask::Record(i) => i < self.count(),
                Ask::Rest(i) => i < self.count(),
                Ask::Nothing => true,
            },
            r == Ask::Nothing ==> forall|f: Seq<u8>| #[trigger] self.will_find(f) == self.found(),
    {
        match self.phase {
            Phase::Bisect { lo, hi } => Ask::Record(lo + (hi - lo) / 2),
            Phase::Rest { i } => Ask::Rest(i),
            Phase::Step { i } => Ask::Record(i),
            Phase::Over => Ask::Nothing,
        }
    }

    fn start(&mut self, start: usize)
        requires
            old(self).stride > 0,
            old(self).n <= usize::MAX / 16,
        ensures
            final(self).wf(),
            final(self).n == old(self).n,
            final(self).left() <= old(self).n,
            forall|f: Seq<u8>| #[trigger]
                final(self).will_find(f) == old(self).out@ + rows_from(
                    f,
                    old(self).n as int,
                    old(self).from,
                    old(self).to,
                    old(self).stride as int,
                    start as int,
                ),
    {
        let ghost was = *self;
        if start >= self.n {
            self.phase = Phase::Over;
        } else if self.stride == 1 {
            self.phase = Phase::Rest { i: start };
        } else {
            self.phase = Phase::Step { i: start };
        }
        proof {
            assert forall|f: Seq<u8>| #[trigger]
                self.will_find(f) == was.out@ + rows_from(
                    f,
                    was.n as int,
                    was.from,
                    was.to,
                    was.stride as int,
                    start as int,
                ) by {
                assert(self.will_find(f) =~= was.out@ + rows_from(
                    f,
                    was.n as int,
                    was.from,
                    was.to,
                    was.stride as int,
                    start as int,
                ));
            }
        }
    }

    /// Takes what the file gave, or that it could not be read.
    pub fn give(&mut self, bytes: Option<&[u8]>)
        requires
            old(self).wf(),
            old(self).asks() != Ask::Nothing,
        ensures
            final(self).wf(),
            final(self).count() == old(self).count(),
            final(self).left() < old(self).left(),
            forall|f: Seq<u8>|
                answers(
                    old(self).asks(),
                    match bytes {
                        Some(b) => Some(b@),
                        None => None,
                    },
                    f,
                ) ==> #[trigger] final(self).will_find(f) == old(self).will_find(f),
    {
        match self.phase {
            Phase::Bisect { lo, hi } => self.give_bisect(bytes, lo, hi),
            Phase::Rest { i } => self.give_rest(bytes, i),
            Phase::Step { i } => self.give_step(bytes, i),
            Phase::Over => {},
        }
    }

    fn give_bisect(&mut self, bytes: Option<&[u8]>, lo: usize, hi: usize)
        requires
            old(self).wf(),
            old(self).phase == (Phase::Bisect { lo, hi }),
        ensures
            final(self).wf(),
            final(self).count() == old(self).count(),
            final(self).left() < old(self).left(),
            forall|f: Seq<u8>|
                answers(
                    old(self).asks(),
                    match bytes {
                        Some(b) => Some(b@),
                        None => None,
                    },
                    f,
                ) ==> #[trigger] final(self).will_find(f) == old(self).will_find(f),
    {
        let ghost was = *self;
        let mid: usize = lo + (hi - lo) / 2;
        let row: Option<Row> = match bytes {
            Some(b) => Row::decode(b),
            None => None,
        };
        let read: bool = bytes.is_some();
        let ghost given: Option<Seq<u8>> = match bytes {
            Some(b) => Some(b@),
            None => None,
        };
        proof {
            assert(mid == (lo + hi) / 2);
            assert forall|f: Seq<u8>| answers(was.asks(), given, f) implies (match given {
                Some(b) => row == Some(row_at(b, 0)) && row_of(f, mid as int) == row,
                None => #[trigger] row_of(f, mid as int) is None,
            }) by {
                if let Some(b) = given {
                    lemma_row_in(f, b, mid as int);
                }
            }
        }
        if !read {
            self.start(lo);
            return ;
        }
        let below: bool = match row {
            Some(r) => r.ts < self.from,
            None => false,
        };
        let (lo2, hi2): (usize, usize) = if below {
            (mid + 1, hi)
        } else {
            (lo, mid)
        };
        if lo2 < hi2 {
            self.phase = Phase::Bisect { lo: lo2, hi: hi2 };
        } else {
            self.start(lo2);
        }
        proof {
            assert forall|f: Seq<u8>| answers(was.asks(), given, f) implies #[trigger]
                self.will_find(f) == was.will_find(f) by {
                assert(row_of(f, mid as int) == row);
                assert(bisected(f, lo as int, hi as int, was.from) == bisected(
                    f,
                    lo2 as int,
                    hi2 as int,
                    was.from,
                ));
                if lo2 >= hi2 {
                    assert(bisected(f, lo2 as int, hi2 as int, was.from) == lo2);
                }
            }
        }
    }

    fn give_step(&mut self, bytes: Option<&[u8]>, i: usize)
        requires
            old(self).wf(),
            old(self).phase == (Phase::Step { i }),
        ensures
            final(self).wf(),
            final(self).count() == old(self).count(),
            final(self).left() < old(self).left(),
            forall|f: Seq<u8>|
                answers(
                    old(self).asks(),
                    match bytes {
                        Some(b) => Some(b@),
                        None => None,
                    },
                    f,
                ) ==> #[trigger] final(self).will_find(f) == old(self).will_find(f),
    {
        let ghost was = *self;
        let row: Option<Row> = match bytes {
            Some(b) => Row::decode(b),
            None => None,
        };
        let ghost given: Option<Seq<u8>> = match bytes {
            Some(b) => Some(b@),
            None => None,
        };
        match row {
            Some(r) => {
                if r.ts > self.to {
                    self.phase = Phase::Over;
                } else {
                    if r.ts >= self.from {
                        self.out.push(r);
                    }
                    if self.stride < self.n - i {
                        self.phase = Phase::Step { i: i + self.stride };
                    } else {
                        self.phase = Phase::Over;
                    }
                }
            },
            None => {
                self.phase = Phase::Over;
            },
        }
        proof {
            assert forall|f: Seq<u8>| answers(was.asks(), given, f) implies #[trigger]
                self.will_find(f) == was.will_find(f) by {
                let s = was.stride as int;
                let n = was.n as int;
                if let Some(b) = given {
                    lemma_row_in(f, b, i as int);
                    assert(row_of(f, i as int) == row);
                    let t = taken(f, i + s, s, n, was.from, was.to);
                    if i + s >= n {
                        assert(t =~= seq![]);
                    }
                    let r = row->Some_0;
                    if r.ts > was.to {
                        assert(taken(f, i as int, s, n, was.from, was.to) =~= seq![]);
                    } else {
                        assert(was.out@ + ((if r.ts >= was.from {
                            seq![r]
                        } else {
                            seq![]
                        }) + t) =~= self.out@ + t);
                    }
                } else {
                    assert(taken(f, i as int, s, n, was.from, was.to) =~= seq![]);
                }
                assert(self.will_find(f) =~= was.will_find(f));
            }
        }
    }

    fn give_rest(&mut self, bytes: Option<&[u8]>, i: usize)
        requires
            old(self).wf(),
            old(self).phase == (Phase::Rest { i }),
        ensures
            final(self).wf(),
            final(self).count() == old(self).count(),
            final(self).left() < old(self).left(),
            forall|f: Seq<u8>|
                answers(
                    old(self).asks(),
                    match bytes {
                        Some(b) => Some(b@),
                        None => None,
                    },
                    f,
                ) ==> #[trigger] final(self).will_find(f) == old(self).will_find(f),
    {
        let ghost was = *self;
        self.phase = Phase::Over;
        if let Some(b) = bytes {
            let m: usize = b.len() / REC;
            let mut k: usize = 0;
            assert(self.out@ + taken(b@, 0, 1, m as int, self.from, self.to) =~= was.out@ + taken(
                b@,
                0,
                1,
                m as int,
                self.from,
                self.to,
            ));
            while k < m
                invariant
                    k <= m == b@.len() / 16,
                    b@.len() <= usize::MAX,
                    self.phase == Phase::Over,
                    self.n == was.n,
                    self.stride == was.stride,
                    self.from == was.from,
                    self.to == was.to,
                    was.out@ + taken(b@, 0, 1, m as int, was.from, was.to) == self.out@ + taken(
                        b@,
                        k as int,
                        1,
                        m as int,
                        was.from,
                        was.to,
                    ),
                ensures
                    self.phase == Phase::Over,
                    self.n == was.n,
                    self.stride == was.stride,
                    self.from == was.from,
                    self.to == was.to,
                    self.out@ == was.out@ + taken(b@, 0, 1, m as int, was.from, was.to),
                decreases m - k,
            {
                let c = vstd::slice::slice_subrange(b, k * REC, (k + 1) * REC);
                proof {
                    assert(c@ =~= b@.subrange(k * 16, (k + 1) * 16));
                    lemma_row_in(b@, c@, k as int);
                }
                match Row::decode(c) {
                    Some(r) => {
                        if r.ts > self.to {
                            assert(self.out@ + Seq::<Row>::empty() =~= self.out@);
                            break;
                        }
                        let ghost held = self.out@;
                        if r.ts >= self.from {
                            self.out.push(r);
                        }
                        proof {
                            let t = taken(b@, k + 1, 1, m as int, was.from, was.to);
                            assert(held + ((if r.ts >= was.from {
                                seq![r]
                            } else {
                                seq![]
                            }) + t) =~= self.out@ + t);
                        }
                    },
                    None => {},
                }
                k = k + 1;
                proof {
                    if k >= m {
                        assert(self.out@ + Seq::<Row>::empty() =~= self.out@);
                    }
                }
            }
            proof {
                assert forall|f: Seq<u8>|
                    answers(was.asks(), Some(b@), f) implies #[trigger] self.will_find(f)
                    == was.will_find(f) by {
                    lemma_taken_skip(f, b@, i as int, 0, was.from, was.to);
                    assert(f.len() as int / 16 == i + m);
                }
            }
        }
    }

    /// The rows that the scan found.
    pub fn rows(self) -> (r: Vec<Row>)
        ensures
            r@ == self.found(),
    {
        self.out
    }
}

/// The bytes of a record give the row that the file has there.
proof fn lemma_row_in(f: Seq<u8>, b: Seq<u8>, i: int)
    requires
        0 <= i,
        (i + 1) * 16 <= f.len(),
        b == f.subrange(i * 16, (i + 1) * 16),
    ensures
        row_of(f, i) == Some(row_at(b, 0)),
        b.len() == 16,
{
    assert forall|k: int| 0 <= k < 16 implies f[i * 16 + k] == #[trigger] b[k] by {}
    assert(row_at(f, i * 16) == row_at(b, 0)) by {
        assert(f[i * 16] == b[0]);
        assert(f[i * 16 + 1] == b[1]);
        assert(f[i * 16 + 2] == b[2]);
        assert(f[i * 16 + 3] == b[3]);
        assert(f[i * 16 + 4] == b[4]);
        assert(f[i * 16 + 5] == b[5]);
        assert(f[i * 16 + 6] == b[6]);
        assert(f[i * 16 + 7] == b[7]);
        assert(f[i * 16 + 8] == b[8]);
        assert(f[i * 16 + 9] == b[9]);
        assert(f[i * 16 + 10] == b[10]);
        assert(f[i * 16 + 11] == b[11]);
        assert(f[i * 16 + 12] == b[12]);
        assert(f[i * 16 + 14] == b[14]);
        assert(f[i * 16 + 15] == b[15]);
    }
}

proof fn lemma_taken_skip(f: Seq<u8>, b: Seq<u8>, i: int, k: int, from: u32, to: u32)
    requires
        0 <= i,
        0 <= k,
        i * 16 <= f.len(),
        b == f.skip(i * 16),
    ensures
        taken(b, k, 1, b.len() as int / 16, from, to) == taken(
            f,
            i + k,
            1,
            f.len() as int / 16,
            from,
            to,
        ),
    decreases b.len() as int / 16 - k,
{
    assert(f.len() as int / 16 == i + b.len() as int / 16);
    if k < b.len() as int / 16 {
        let c = b.subrange(k * 16, (k + 1) * 16);
        lemma_row_in(b, c, k);
        assert(c =~= f.subrange((i + k) * 16, (i + k + 1) * 16));
        lemma_row_in(f, c, i + k);
        lemma_taken_skip(f, b, i, k + 1, from, to);
    }
}

/// The rows from `from` to `to` of a file that is at hand.
fn scan_file(f: &[u8], from: u32, to: u32, stride: usize) -> (r: Vec<Row>)
    requires
        stride > 0,
    ensures
        r@ == day_rows(f@, f@.len() as int / REC as int, from, to, stride as int),
{
    let n: usize = f.len() / REC;
    let mut scan = Scan::new(n, from, to, stride);
    loop
        invariant
            scan.wf(),
            scan.count() == n == f@.len() / 16,
            f@.len() <= usize::MAX,
            scan.will_find(f@) == day_rows(
                f@,
                f@.len() as int / REC as int,
                from,
                to,
                stride as int,
            ),
        decreases scan.left(),
    {
        match scan.next() {
            Ask::Record(i) => {
                scan.give(Some(vstd::slice::slice_subrange(f, i * REC, (i + 1) * REC)));
            },
            Ask::Rest(i) => {
                let b = vstd::slice::slice_subrange(f, i * REC, f.len());
                assert(b@ =~= f@.skip(i * REC));
                scan.give(Some(b));
            },
            Ask::Nothing => {
                return scan.rows();
            },
        }
    }
}

// ---------------------------------------------------------------- ranges

/// The stride at which `total` rows are read so that about `want` of them are.
pub open spec fn stride_for(total: nat, want: nat) -> nat {
    if want == 0 || total <= want {
        1
    } else {
        total / want
    }
}

/// The sum of the first `k` counts.
pub open spec fn sum_of(counts: Seq<usize>, k: int) -> nat
    decreases k,
{
    if k <= 0 {
        0
    } else {
        sum_of(counts, k - 1) + counts[k - 1] as nat
    }
}

/// The stride at which days of so many records are read so that about `want` of the rows are.
/// A stride as long as all of memory is as good as a longer one.
pub fn stride_of(counts: &[usize], want: usize) -> (r: usize)
    ensures
        r > 0,
        ({
            let s = stride_for(sum_of(counts@, counts@.len() as int), want as nat);
            r == if s > usize::MAX {
                usize::MAX as nat
            } else {
                s
            }
        }),
{
    let mut total: u128 = 0;
    let mut i: usize = 0;
    let len: usize = counts.len();
    while i < len
        invariant
            i <= len == counts@.len(),
            total == sum_of(counts@, i as int),
            total <= i * 0xffff_ffff_ffff_ffff,
        decreases len - i,
    {
        assert(i * 0xffff_ffff_ffff_ffff + 0xffff_ffff_ffff_ffff <= 0xffff_ffff_ffff_ffff
            * 0xffff_ffff_ffff_ffff) by (nonlinear_arith)
            requires
                0 <= i < 0xffff_ffff_ffff_ffff,
        ;
        total = total + counts[i] as u128;
        i = i + 1;
    }
    if want == 0 || total <= want as u128 {
        return 1;
    }
    let s: u128 = total / want as u128;
    assert(s > 0) by (nonlinear_arith)
        requires
            s == total / want as u128,
            total > want,
            want > 0,
    ;
    if s > usize::MAX as u128 {
        usize::MAX
    } else {
        s as usize
    }
}

/// The rows from `from` to `to` in the first `k` files, read at the given stride.
pub open spec fn range_rows(files: Seq<Seq<u8>>, from: u32, to: u32, stride: int, k: int) -> Seq<
    Row,
>
    decreases k,
{
    if k <= 0 {
        seq![]
    } else {
        range_rows(files, from, to, stride, k - 1) + day_rows(
            files[k - 1],
            files[k - 1].len() as int / REC as int,
            from,
            to,
            stride,
        )
    }
}

/// The number of records in each file.
pub open spec fn record_counts(files: Seq<Seq<u8>>) -> Seq<usize> {
    files.map_values(|f: Seq<u8>| (f.len() / REC as nat) as usize)
}

/// The rows from `from` to `to` in the files, reading about `want` of them.
pub open spec fn strided_rows(files: Seq<Seq<u8>>, from: u32, to: u32, want: nat) -> Seq<Row> {
    let s = stride_for(sum_of(record_counts(files), files.len() as int), want);
    range_rows(
        files,
        from,
        to,
        if s > usize::MAX {
            usize::MAX as int
        } else {
            s as int
        },
        files.len() as int,
    )
}

impl Db {
    /// The rows from `from` to `to` in the files of the days, reading about `want` of them.
    pub fn range_strided(files: &[Vec<u8>], from: u32, to: u32, want: usize) -> (r: Vec<Row>)
        ensures
            r@ == strided_rows(files@.map_values(|f: Vec<u8>| f@), from, to, want as nat),
    {
        let ghost fs = files@.map_values(|f: Vec<u8>| f@);
        let mut counts: Vec<usize> = Vec::new();
        let mut i: usize = 0;
        while i < files.len()
            invariant
                i <= files@.len(),
                fs == files@.map_values(|f: Vec<u8>| f@),
                counts@ == record_counts(fs).take(i as int),
            decreases files@.len() - i,
        {
            let n: usize = files[i].len() / REC;
            proof {
                assert(fs[i as int] == files@[i as int]@);
                assert(record_counts(fs).take(i + 1) =~= record_counts(fs).take(i as int).push(n));
            }
            counts.push(n);
            i = i + 1;
        }
        proof {
            assert(counts@ =~= record_counts(fs));
        }
        let stride: usize = stride_of(counts.as_slice(), want);
        let mut out: Vec<Row> = Vec::new();
        let mut i: usize = 0;
        assert(out@ =~= seq![]);
        while i < files.len()
            invariant
                i <= files@.len(),
                stride > 0,
                fs == files@.map_values(|f: Vec<u8>| f@),
                out@ == range_rows(fs, from, to, stride as int, i as int),
            decreases files@.len() - i,
        {
            let rows = scan_file(files[i].as_slice(), from, to, stride);
            let mut j: usize = 0;
            let ghost held = out@;
            assert(held + rows@.take(0) =~= held);
            while j < rows.len()
                invariant
                    j <= rows@.len(),
                    out@ == held + rows@.take(j as int),
                decreases rows@.len() - j,
            {
                proof {
                    assert(held + rows@.take(j + 1) =~= (held + rows@.take(j as int)).push(
                        rows@[j as int],
                    ));
                }
                out.push(rows[j]);
                j = j + 1;
            }
            proof {
                assert(rows@.take(rows@.len() as int) =~= rows@);
                assert(fs[i as int] == files@[i as int]@);
            }
            i = i + 1;
        }
        out
    }

    /// The rows from `from` to `to` in the files of the days.
    pub fn range(files: &[Vec<u8>], from: u32, to: u32) -> (r: Vec<Row>)
        ensures
            r@ == strided_rows(files@.map_values(|f: Vec<u8>| f@), from, to, usize::MAX as nat),
    {
        Db::range_strided(files, from, to, usize::MAX)
    }
}

// ---------------------------------------------------------------- what was stored reads back

/// Whether the times of the first `n` records grow.
pub open spec fn in_time_order(f: Seq<u8>, n: int) -> bool {
    &&& n * REC <= f.len()
    &&& forall|i: int, j: int|
        0 <= i < j < n ==> (#[trigger] row_at(f, i * REC)).ts < (#[trigger] row_at(f, j * REC)).ts
}

proof fn lemma_bisect_between(f: Seq<u8>, n: int, lo: int, hi: int, target: u32)
    requires
        in_time_order(f, n),
        0 <= lo <= hi <= n,
        forall|i: int| 0 <= i < lo ==> (#[trigger] row_at(f, i * REC)).ts < target,
        forall|i: int| hi <= i < n ==> (#[trigger] row_at(f, i * REC)).ts >= target,
    ensures
        ({
            let b = bisected(f, lo, hi, target);
            &&& lo <= b <= hi
            &&& forall|i: int| 0 <= i < b ==> (#[trigger] row_at(f, i * REC)).ts < target
            &&& forall|i: int| b <= i < n ==> (#[trigger] row_at(f, i * REC)).ts >= target
        }),
    decreases hi - lo,
{
    if lo < hi {
        let mid = (lo + hi) / 2;
        let r = row_at(f, mid * REC);
        assert(row_of(f, mid) == Some(r));
        if r.ts < target {
            assert forall|i: int| 0 <= i < mid + 1 implies (#[trigger] row_at(f, i * REC)).ts
                < target by {}
            lemma_bisect_between(f, n, mid + 1, hi, target);
        } else {
            assert forall|i: int| mid <= i < n implies (#[trigger] row_at(f, i * REC)).ts
                >= target by {}
            lemma_bisect_between(f, n, lo, mid, target);
        }
    }
}

/// The bisection finds the first record at or after the time.
pub proof fn lemma_bisect(f: Seq<u8>, n: int, target: u32)
    requires
        0 <= n,
        in_time_order(f, n),
    ensures
        ({
            let b = bisected(f, 0, n, target);
            &&& 0 <= b <= n
            &&& forall|i: int| 0 <= i < b ==> (#[trigger] row_at(f, i * REC)).ts < target
            &&& forall|i: int| b <= i < n ==> (#[trigger] row_at(f, i * REC)).ts >= target
        }),
{
    lemma_bisect_between(f, n, 0, n, target);
}

/// The rows from `from` to `to`.
pub open spec fn between(rows: Seq<Row>, from: int, to: int) -> Seq<Row>
    decreases rows.len(),
{
    if rows.len() == 0 {
        seq![]
    } else if from <= rows.last().ts <= to {
        between(rows.drop_last(), from, to).push(rows.last())
    } else {
        between(rows.drop_last(), from, to)
    }
}

/// The records of rows, one after the other.
pub open spec fn records(rows: Seq<Row>) -> Seq<u8>
    decreases rows.len(),
{
    if rows.len() == 0 {
        seq![]
    } else {
        records(rows.drop_last()) + record(rows.last())
    }
}

/// Whether the times of the rows grow.
pub open spec fn growing(rows: Seq<Row>) -> bool {
    forall|i: int, j: int| 0 <= i < j < rows.len() ==> (#[trigger] rows[i]).ts < (
    #[trigger] rows[j]).ts
}

proof fn lemma_records(rows: Seq<Row>, i: int)
    requires
        0 <= i < rows.len(),
    ensures
        records(rows).len() == rows.len() * 16,
        row_at(records(rows), i * 16) == rows[i],
    decreases rows.len(),
{
    let init = rows.drop_last();
    let f = records(rows);
    if init.len() > 0 {
        lemma_records(init, 0);
    }
    assert(records(init).len() == init.len() * 16);
    if i == rows.len() - 1 {
        assert(f.subrange(i * 16, i * 16 + 16) =~= record(rows.last()));
        lemma_record_round_trip(rows.last(), f, i * 16);
    } else {
        lemma_records(init, i);
        let b = f.subrange(i * 16, (i + 1) * 16);
        assert(b =~= records(init).subrange(i * 16, (i + 1) * 16));
        lemma_row_in(f, b, i);
        lemma_row_in(records(init), b, i);
        assert(init[i] == rows[i]);
    }
}

pub(crate) proof fn lemma_records_len(rows: Seq<Row>)
    ensures
        records(rows).len() == rows.len() * 16,
{
    if rows.len() > 0 {
        lemma_records(rows, 0);
    }
}

proof fn lemma_between_none(rows: Seq<Row>, from: int, to: int)
    requires
        forall|i: int| 0 <= i < rows.len() ==> !(from <= (#[trigger] rows[i]).ts <= to),
    ensures
        between(rows, from, to) == Seq::<Row>::empty(),
    decreases rows.len(),
{
    if rows.len() > 0 {
        let init = rows.drop_last();
        assert forall|i: int| 0 <= i < init.len() implies !(from <= (#[trigger] init[i]).ts
            <= to) by {
            assert(init[i] == rows[i]);
        }
        assert(rows[rows.len() - 1] == rows.last());
        lemma_between_none(init, from, to);
    }
}

proof fn lemma_between_join(a: Seq<Row>, b: Seq<Row>, from: int, to: int)
    ensures
        between(a + b, from, to) == between(a, from, to) + between(b, from, to),
    decreases b.len(),
{
    if b.len() == 0 {
        assert(a + b =~= a);
        assert(between(a, from, to) + between(b, from, to) =~= between(a, from, to));
    } else {
        assert((a + b).drop_last() =~= a + b.drop_last());
        assert((a + b).last() == b.last());
        lemma_between_join(a, b.drop_last(), from, to);
        assert(between(a + b, from, to) =~= between(a, from, to) + between(b, from, to));
    }
}

proof fn lemma_taken_all(rows: Seq<Row>, i: int, from: u32, to: u32)
    requires
        growing(rows),
        0 <= i <= rows.len(),
        forall|k: int| i <= k < rows.len() ==> (#[trigger] rows[k]).ts >= from,
    ensures
        taken(records(rows), i, 1, rows.len() as int, from, to) == between(
            rows.skip(i),
            from as int,
            to as int,
        ),
    decreases rows.len() - i,
{
    let f = records(rows);
    lemma_records_len(rows);
    if i < rows.len() {
        lemma_records(rows, i);
        assert(row_of(f, i) == Some(rows[i]));
        lemma_taken_all(rows, i + 1, from, to);
        let head = seq![rows[i]];
        assert(rows.skip(i) =~= head + rows.skip(i + 1));
        lemma_between_join(head, rows.skip(i + 1), from as int, to as int);
        assert(between(head.drop_last(), from as int, to as int) =~= seq![]);
        if rows[i].ts > to {
            let rest = rows.skip(i);
            assert forall|k: int| 0 <= k < rest.len() implies !(from <= (#[trigger] rest[k]).ts
                <= to) by {
                assert(rest[k] == rows[i + k]);
            }
            lemma_between_none(rest, from as int, to as int);
        } else {
            assert(between(head, from as int, to as int) =~= head);
        }
    } else {
        assert(rows.skip(i) =~= seq![]);
    }
}

/// A day whose rows were stored in the order of time gives back just those between the two
/// times.
pub proof fn lemma_day_reads_back(rows: Seq<Row>, from: u32, to: u32)
    requires
        growing(rows),
    ensures
        day_rows(records(rows), rows.len() as int, from, to, 1) == between(
            rows,
            from as int,
            to as int,
        ),
{
    let f = records(rows);
    let n = rows.len() as int;
    lemma_records_len(rows);
    assert forall|i: int, j: int| 0 <= i < j < n implies (#[trigger] row_at(f, i * REC)).ts < (
    #[trigger] row_at(f, j * REC)).ts by {
        lemma_records(rows, i);
        lemma_records(rows, j);
    }
    lemma_bisect(f, n, from);
    let b = bisected(f, 0, n, from);
    assert forall|k: int| b <= k < n implies (#[trigger] rows[k]).ts >= from by {
        lemma_records(rows, k);
        assert(row_at(f, k * REC).ts >= from);
    }
    assert forall|k: int| 0 <= k < b implies (#[trigger] rows[k]).ts < from by {
        lemma_records(rows, k);
        assert(row_at(f, k * REC).ts < from);
    }
    let head = rows.take(b);
    assert(rows =~= head + rows.skip(b));
    lemma_between_join(head, rows.skip(b), from as int, to as int);
    lemma_between_none(head, from as int, to as int);
    if b < n {
        lemma_taken_all(rows, b, from, to);
        assert(f.len() as int / 16 == n);
    } else {
        assert(rows.skip(b) =~= seq![]);
    }
    assert(between(head, from as int, to as int) + between(rows.skip(b), from as int, to as int)
        =~= between(rows.skip(b), from as int, to as int));
}

/// The rows of day `d`.
pub open spec fn rows_of_day(rows: Seq<Row>, d: int) -> Seq<Row> {
    between(rows, d * 86_400, d * 86_400 + 86_399)
}

/// The files that hold the rows of the `k` days from `d` on.
pub open spec fn day_files(rows: Seq<Row>, d: int, k: nat) -> Seq<Seq<u8>> {
    Seq::new(k, |i: int| records(rows_of_day(rows, d + i)))
}

pub(crate) proof fn lemma_between_members(rows: Seq<Row>, from: int, to: int)
    ensures
        growing(rows) ==> growing(between(rows, from, to)),
        forall|i: int|
            0 <= i < between(rows, from, to).len() ==> from <= (#[trigger] between(
                rows,
                from,
                to,
            )[i]).ts <= to && rows.contains(between(rows, from, to)[i]),
    decreases rows.len(),
{
    if rows.len() > 0 {
        let init = rows.drop_last();
        lemma_between_members(init, from, to);
        let b = between(rows, from, to);
        let c = between(init, from, to);
        if growing(rows) {
            assert forall|i: int, j: int| 0 <= i < j < init.len() implies (
            #[trigger] init[i]).ts < (#[trigger] init[j]).ts by {
                assert(init[i] == rows[i] && init[j] == rows[j]);
            }
        }
        assert forall|i: int| 0 <= i < b.len() implies from <= (#[trigger] b[i]).ts <= to
            && rows.contains(b[i]) by {
            if i < c.len() {
                assert(b[i] == c[i]);
                let k = choose|k: int| 0 <= k < init.len() && init[k] == c[i];
                assert(rows[k] == c[i]);
            } else {
                assert(rows[rows.len() - 1] == b[i]);
            }
        }
        if growing(rows) {
            assert forall|i: int, j: int| 0 <= i < j < b.len() implies (#[trigger] b[i]).ts < (
            #[trigger] b[j]).ts by {
                if j < c.len() {
                    assert(b[i] == c[i] && b[j] == c[j]);
                } else {
                    assert(b[i] == c[i]);
                    let k = choose|k: int| 0 <= k < init.len() && init[k] == c[i];
                    assert(rows[k] == c[i] && rows[rows.len() - 1] == b[j]);
                }
            }
        }
    }
}

proof fn lemma_between_within(rows: Seq<Row>, a: int, b: int, from: int, to: int)
    ensures
        between(between(rows, a, b), from, to) == between(
            rows,
            if a > from {
                a
            } else {
                from
            },
            if b < to {
                b
            } else {
                to
            },
        ),
    decreases rows.len(),
{
    if rows.len() > 0 {
        let init = rows.drop_last();
        lemma_between_within(init, a, b, from, to);
        let c = between(init, a, b);
        assert(c.push(rows.last()).drop_last() =~= c);
    }
}

proof fn lemma_between_split(rows: Seq<Row>, from: int, m: int, to: int)
    requires
        growing(rows),
        from <= m + 1,
        m <= to,
    ensures
        between(rows, from, to) == between(rows, from, m) + between(rows, m + 1, to),
    decreases rows.len(),
{
    if rows.len() > 0 {
        let init = rows.drop_last();
        let r = rows.last();
        assert forall|i: int, j: int| 0 <= i < j < init.len() implies (#[trigger] init[i]).ts < (
        #[trigger] init[j]).ts by {
            assert(init[i] == rows[i] && init[j] == rows[j]);
        }
        lemma_between_split(init, from, m, to);
        if from <= r.ts <= m {
            assert forall|i: int| 0 <= i < init.len() implies !(m + 1 <= (#[trigger] init[i]).ts
                <= to) by {
                assert(init[i] == rows[i] && rows[rows.len() - 1] == r);
            }
            lemma_between_none(init, m + 1, to);
        }
        assert(between(rows, from, to) =~= between(rows, from, m) + between(rows, m + 1, to));
    } else {
        assert(between(rows, from, to) =~= between(rows, from, m) + between(rows, m + 1, to));
    }
}

proof fn lemma_days_read_back(rows: Seq<Row>, from: u32, to: u32, d: int, n: nat, k: int)
    requires
        growing(rows),
        d == from as int / 86_400,
        0 <= k <= n,
    ensures
        range_rows(day_files(rows, d, n), from, to, 1, k) == between(
            rows,
            from as int,
            if (d + k) * 86_400 - 1 < to {
                (d + k) * 86_400 - 1
            } else {
                to as int
            },
        ),
    decreases k,
{
    let files = day_files(rows, d, n);
    if k == 0 {
        assert forall|i: int| 0 <= i < rows.len() implies !(from <= (#[trigger] rows[i]).ts
            <= d * 86_400 - 1) by {}
        lemma_between_none(rows, from as int, if d * 86_400 - 1 < to {
            d * 86_400 - 1
        } else {
            to as int
        });
    } else {
        lemma_days_read_back(rows, from, to, d, n, k - 1);
        let e = d + k - 1;
        let day = rows_of_day(rows, e);
        lemma_between_members(rows, e * 86_400, e * 86_400 + 86_399);
        lemma_day_reads_back(day, from, to);
        lemma_records_len(day);
        assert(files[k - 1] == records(day));
        assert(files[k - 1].len() as int / 16 == day.len());
        lemma_between_within(rows, e * 86_400, e * 86_400 + 86_399, from as int, to as int);
        let end = e * 86_400 + 86_399;
        let top = if end < to {
            end
        } else {
            to as int
        };
        let m = if e * 86_400 - 1 < to {
            e * 86_400 - 1
        } else {
            to as int
        };
        let low = if e * 86_400 > from {
            e * 86_400
        } else {
            from as int
        };
        // the day gives the rows from `low` to `top`, the days before those up to `m`
        if e * 86_400 - 1 < to {
            if e * 86_400 > from {
                lemma_between_split(rows, from as int, m, top);
            } else {
                lemma_between_none(rows, from as int, m);
                assert(between(rows, from as int, m) + between(rows, low, top) =~= between(
                    rows,
                    low,
                    top,
                ));
            }
        } else {
            lemma_between_none(rows, low, top);
            assert(between(rows, from as int, m) + between(rows, low, top) =~= between(
                rows,
                from as int,
                m,
            ));
        }
    }
}

/// What was stored in the order of time, each row in the file of its day, is read back by a
/// range over those days: the rows between the two times, all of them, in order.
pub proof fn lemma_range_reads_back(rows: Seq<Row>, from: u32, to: u32, d: int, n: nat)
    requires
        growing(rows),
        d == from as int / 86_400,
        (d + n) * 86_400 > to,
    ensures
        range_rows(day_files(rows, d, n), from, to, 1, n as int) == between(
            rows,
            from as int,
            to as int,
        ),
{
    lemma_days_read_back(rows, from, to, d, n, n as int);
}

// ---------------------------------------------------------------- files and days

/// The name of the file of a server and a day.
pub open spec fn file_name(server: Seq<char>, day: Seq<char>) -> Seq<char> {
    server + seq!['-'] + day + ".bin"@
}

/// What follows the last dash among the first `i` characters.
pub open spec fn after_dash(s: Seq<char>, i: int) -> Seq<char>
    decreases i,
{
    if i <= 0 {
        s
    } else if s[i - 1] == '-' {
        s.skip(i)
    } else {
        after_dash(s, i - 1)
    }
}

/// The day in the name of a file, where it is the name of a file of the store.
pub open spec fn day_in(name: Seq<char>) -> Option<Seq<char>> {
    let t = after_dash(name, name.len() as int);
    if t.len() >= 4 && t.skip(t.len() - 4) == ".bin"@ {
        Some(t.take(t.len() - 4))
    } else {
        None
    }
}

/// Whether a text is a day in eight digits.
pub open spec fn is_day(t: Seq<char>) -> bool {
    t.len() == 8 && all_digits(t)
}

/// The day in the name of a file, where it is a day in eight digits.
pub open spec fn dated(name: Seq<char>) -> Option<Seq<char>> {
    match day_in(name) {
        Some(d) => if is_day(d) {
            Some(d)
        } else {
            None
        },
        None => None,
    }
}

/// The first day among the first `k` names.
pub open spec fn oldest_day(names: Seq<String>, k: int) -> Option<Seq<char>>
    decreases k,
{
    if k <= 0 {
        None
    } else {
        match (oldest_day(names, k - 1), dated(names[k - 1]@)) {
            (Some(b), Some(d)) => if before(d, b) {
                Some(d)
            } else {
                Some(b)
            },
            (None, Some(d)) => Some(d),
            (b, None) => b,
        }
    }
}

/// The earliest time among the first records of the first `k` files. Records that are cut short
/// do not count, nor do files without a date in their name.
pub open spec fn earliest_ts(names: Seq<String>, firsts: Seq<Vec<u8>>, k: int) -> Option<u32>
    decreases k,
{
    if k <= 0 {
        None
    } else {
        let m = earliest_ts(names, firsts, k - 1);
        if dated(names[k - 1]@) is None || firsts[k - 1]@.len() < REC {
            m
        } else {
            let t = row_at(firsts[k - 1]@, 0).ts;
            match m {
                Some(m) => if t < m {
                    Some(t)
                } else {
                    Some(m)
                },
                None => Some(t),
            }
        }
    }
}

/// When a day in eight digits starts. The count of seconds has 32 bits.
pub open spec fn day_start(day: Seq<char>) -> u32 {
    let n = days_formula(
        number(day.subrange(0, 4)) as int,
        number(day.subrange(4, 6)) as int,
        number(day.subrange(6, 8)) as int,
    );
    ((n * 86_400) % 0x1_0000_0000) as u32
}

fn name_day(name: &str) -> (r: Option<String>)
    ensures
        match r {
            Some(d) => day_in(name@) == Some(d@),
            None => day_in(name@) is None,
        },
{
    let v = chars_of(name);
    let mut i: usize = v.len();
    while i > 0 && v[i - 1] != '-'
        invariant
            i <= v@.len(),
            v@ == name@,
            after_dash(name@, name@.len() as int) == after_dash(name@, i as int),
        decreases i,
    {
        i = i - 1;
    }
    let t = part(v.as_slice(), i, v.len());
    assert(t@ =~= after_dash(name@, name@.len() as int));
    if t.len() < 4 {
        return None;
    }
    let n: usize = t.len() - 4;
    assert(t@.subrange(n as int, t@.len() as int) =~= t@.skip(t@.len() - 4));
    assert(t@.subrange(0, n as int) =~= t@.take(t@.len() - 4));
    if is_str(part(t, n, t.len()), ".bin") {
        Some(string_of(part(t, 0, n)))
    } else {
        None
    }
}

fn eight_digits(t: &str) -> (r: bool)
    ensures
        r == is_day(t@),
{
    let v = chars_of(t);
    if v.len() != 8 {
        return false;
    }
    let end: usize = end_of_digits(v.as_slice(), 0);
    proof {
        assert(v@.subrange(0, 8) =~= v@);
        if end < 8 {
            lemma_digits_end(v@, 0);
        }
    }
    end == 8
}

fn low_32(v: i64) -> (r: u32)
    ensures
        r == v as int % 0x1_0000_0000,
{
    let q: i64 = floor_div_32(v);
    (v as i128 - q as i128 * 0x1_0000_0000) as u32
}

fn floor_div_32(v: i64) -> (r: i64)
    ensures
        r == v as int / 0x1_0000_0000,
{
    floor_div(floor_div(v, 0x1_0000), 0x1_0000)
}

fn small_number(v: &[char]) -> (r: u32)
    requires
        all_digits(v@),
        v@.len() <= 4,
    ensures
        r == number(v@),
        r < 10_000,
{
    let mut n: u32 = 0;
    let mut i: usize = 0;
    while i < v.len()
        invariant
            i <= v@.len() <= 4,
            all_digits(v@),
            n == number(v@.take(i as int)),
            i == 0 ==> n == 0,
            i == 1 ==> n < 10,
            i == 2 ==> n < 100,
            i == 3 ==> n < 1000,
            i == 4 ==> n < 10_000,
        decreases v@.len() - i,
    {
        proof {
            assert(v@.take(i + 1).drop_last() =~= v@.take(i as int));
            assert(is_digit(v@[i as int]));
        }
        n = n * 10 + (v[i] as u32 - 48);
        i = i + 1;
    }
    proof {
        assert(v@.take(v@.len() as int) =~= v@);
    }
    n
}

fn start_of_day(day: &str) -> (r: u32)
    requires
        is_day(day@),
    ensures
        r == day_start(day@),
{
    let v = chars_of(day);
    let b = v.as_slice();
    let y: u32 = small_number(part(b, 0, 4));
    let m: u32 = small_number(part(b, 4, 6));
    let d: u32 = small_number(part(b, 6, 8));
    low_32(days_from_civil(y as i64, m, d) * 86_400)
}

/// The days from `from` to `to`, and the day of `from` at least.
pub fn days_between(from: i64, to: i64) -> (r: Vec<String>)
    ensures
        ({
            let first = from as int / 86_400;
            let last = to as int / 86_400;
            &&& r@.len() == if last < first {
                1
            } else {
                last - first + 1
            }
            &&& forall|i: int| 0 <= i < r@.len() ==> is_day_text((#[trigger] r@[i])@, first + i)
        }),
{
    let mut out: Vec<String> = Vec::new();
    let first: i64 = floor_div(from, 86_400);
    let last: i64 = floor_div(to, 86_400);
    let mut d: i64 = first;
    while d <= last
        invariant
            first == from as int / 86_400,
            last == to as int / 86_400,
            last <= i64::MAX / 86_400,
            first >= i64::MIN / 86_400 - 1,
            first <= d,
            d <= last + 1 || d == first,
            out@.len() == d - first,
            forall|i: int|
                0 <= i < out@.len() ==> is_day_text((#[trigger] out@[i])@, first + i),
        decreases last + 1 - d,
    {
        out.push(day_text(d));
        d = d + 1;
    }
    if out.len() == 0 {
        out.push(day_of(from));
    }
    out
}

// ---------------------------------------------------------------- the store

/// The store: where it is, which file of each server is open, and when each server's last row
/// was stored.
pub struct Db {
    pub dir: String,
    pub open: Table<String>,
    pub last_write: Table<u32>,
    pub period: u32,
}

/// What is to be written to store a row.
pub struct Write {
    /// The day of the row.
    pub day: String,
    /// The name of the file.
    pub file: String,
    /// Whether the file has to be opened first.
    pub reopen: bool,
    /// The record.
    pub bytes: [u8; REC],
}

/// The day of the file that is open for a server.
pub open spec fn open_day(open: Seq<(Seq<char>, String)>, server: Seq<char>) -> Option<Seq<char>> {
    match lookup(open, server) {
        Some(d) => Some(d@),
        None => None,
    }
}

/// Whether a row comes too early after the last one to be stored.
pub open spec fn too_early(last: Option<u32>, period: u32, ts: u32) -> bool {
    last matches Some(l) && ts < l + period
}

impl Db {
    /// The store in a directory, with that many seconds between the rows of a server, and one
    /// at least.
    pub fn open(dir: String, period: u32) -> (r: Db)
        ensures
            r.dir == dir,
            r.period == if period == 0 {
                1
            } else {
                period
            },
            r.last_write@ == Seq::<(Seq<char>, u32)>::empty(),
            forall|s: Seq<char>| lookup(r.last_write@, s) is None,
            forall|s: Seq<char>| #[trigger] open_day(r.open@, s) is None,
    {
        Db {
            dir,
            open: Table::new(),
            last_write: Table::new(),
            period: if period == 0 {
                1
            } else {
                period
            },
        }
    }

    /// The name of the file of a server and a day.
    pub fn path(server: &str, day: &str) -> (r: String)
        ensures
            r@ == file_name(server@, day@),
    {
        let mut s = own(server);
        s.push('-');
        s.append(day);
        s.append(".bin");
        assert(s@ =~= file_name(server@, day@));
        s
    }

    /// What is to be written to store a row; nothing where it comes too early after the last.
    pub fn append(&self, server: &str, row: Row) -> (r: Option<Write>)
        ensures
            match r {
                Some(w) => {
                    &&& !too_early(lookup(self.last_write@, server@), self.period, row.ts)
                    &&& is_day_text(w.day@, row.ts as int / 86_400)
                    &&& w.file@ == file_name(server@, w.day@)
                    &&& w.reopen == (open_day(self.open@, server@) != Some(w.day@))
                    &&& w.bytes@ == record(row)
                },
                None => too_early(lookup(self.last_write@, server@), self.period, row.ts),
            },
    {
        if let Some(last) = self.last_write.get(server) {
            if (row.ts as u64) < *last as u64 + self.period as u64 {
                return None;
            }
        }
        let day = day_of(row.ts as i64);
        let file = Db::path(server, day.as_str());
        let reopen: bool = match self.open.get(server) {
            Some(d) => !eq_str(d.as_str(), day.as_str()),
            None => true,
        };
        Some(Write { day, file, reopen, bytes: row.encode() })
    }

    /// Notes that the file of a server and a day is open.
    pub fn opened(&mut self, server: &str, day: String)
        ensures
            final(self).open@ == put(old(self).open@, server@, day),
            final(self).last_write == old(self).last_write,
            final(self).period == old(self).period,
            final(self).dir == old(self).dir,
    {
        self.open.insert(own(server), day);
    }

    /// Notes that a row of that time was stored.
    pub fn written(&mut self, server: &str, ts: u32)
        ensures
            final(self).last_write@ == put(old(self).last_write@, server@, ts),
            final(self).open == old(self).open,
            final(self).period == old(self).period,
            final(self).dir == old(self).dir,
    {
        self.last_write.insert(own(server), ts);
    }

    /// The time of the oldest row, where `firsts` are the first records of the files of these
    /// names, empty where a file has none or cannot be read: the earliest of them, whichever
    /// file it is in. Where no file has a record it is the start of the oldest day.
    pub fn earliest(names: &[String], firsts: &[Vec<u8>]) -> (r: Option<u32>)
        requires
            names@.len() == firsts@.len(),
        ensures
            r == match earliest_ts(names@, firsts@, names@.len() as int) {
                Some(t) => Some(t),
                None => match oldest_day(names@, names@.len() as int) {
                    Some(d) => Some(day_start(d)),
                    None => None,
                },
            },
    {
        let mut best: Option<String> = None;
        let mut m: Option<u32> = None;
        let mut i: usize = 0;
        while i < names.len()
            invariant
                i <= names@.len(),
                names@.len() == firsts@.len(),
                m == earliest_ts(names@, firsts@, i as int),
                match best {
                    Some(d) => oldest_day(names@, i as int) == Some(d@) && is_day(d@),
                    None => oldest_day(names@, i as int) is None,
                },
            decreases names@.len() - i,
        {
            if let Some(d) = name_day(names[i].as_str()) {
                if eight_digits(d.as_str()) {
                    if let Some(r) = Row::decode(firsts[i].as_slice()) {
                        let earlier: bool = match m {
                            Some(t) => r.ts < t,
                            None => true,
                        };
                        if earlier {
                            m = Some(r.ts);
                        }
                    }
                    let older: bool = match &best {
                        Some(b) => str_before(d.as_str(), b.as_str()),
                        None => true,
                    };
                    if older {
                        best = Some(d);
                    }
                }
            }
            i = i + 1;
        }
        match m {
            Some(t) => Some(t),
            None => match best {
                Some(d) => Some(start_of_day(d.as_str())),
                None => None,
            },
        }
    }

    /// The files of days older than that many days: their days come before the day of the
    /// cutoff.
    pub fn prune(names: &[String], keep_days: i64, now_ts: i64) -> (r: Vec<usize>)
        requires
            i64::MIN <= keep_days * 86_400 <= i64::MAX,
            i64::MIN <= now_ts - keep_days * 86_400 <= i64::MAX,
        ensures
            exists|cutoff: Seq<char>| #[trigger]
                is_day_text(cutoff, (now_ts - keep_days * 86_400) / 86_400) && r@ == files_before(
                    names@,
                    cutoff,
                    names@.len() as int,
                ),
    {
        let cutoff = day_of(now_ts - keep_days * 86_400);
        let mut at: Vec<usize> = Vec::new();
        let mut i: usize = 0;
        assert(at@ =~= seq![]);
        while i < names.len()
            invariant
                i <= names@.len(),
                at@ == files_before(names@, cutoff@, i as int),
            decreases names@.len() - i,
        {
            if let Some(d) = name_day(names[i].as_str()) {
                if str_before(d.as_str(), cutoff.as_str()) {
                    at.push(i);
                }
            }
            i = i + 1;
        }
        assert(is_day_text(cutoff@, (now_ts - keep_days * 86_400) / 86_400));
        at
    }

    /// Where the store is.
    pub fn dir(&self) -> (r: &str)
        ensures
            r@ == self.dir@,
    {
        self.dir.as_str()
    }
}

/// Which of the first `k` names are of files of days before the given one.
pub open spec fn files_before(names: Seq<String>, day: Seq<char>, k: int) -> Seq<usize>
    decreases k,
{
    if k <= 0 {
        seq![]
    } else if day_in(names[k - 1]@) matches Some(d) && before(d, day) {
        files_before(names, day, k - 1).push((k - 1) as usize)
    } else {
        files_before(names, day, k - 1)
    }
}

/// A server's rows are stored at least a period apart: after a row was stored, one is refused
/// just where it comes earlier.
pub proof fn lemma_period_throttles(
    held: Seq<(Seq<char>, u32)>,
    server: Seq<char>,
    ts: u32,
    period: u32,
    next: u32,
)
    ensures
        too_early(lookup(put(held, server, ts), server), period, next) == (next < ts + period),
{
    lemma_put_lookup(held, server, ts, server);
}

} // verus!
