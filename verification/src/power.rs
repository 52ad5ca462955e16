//! Per-server power history: a rolling window for the page, and rows for a log with one file
//! per day. The calendar that names the files stands here too.

use vstd::prelude::*;
use crate::decimal::{all_digits, fixed, fixed_text, lemma_filled, number, ten};
use crate::double::{is_whole, saturated, Double};
use crate::model::Gpu;
use crate::table::{lemma_put_lookup, lookup, Table};
use crate::text::{
    eq_str, filled, i64_numeral, int_text, is_digit, numeral, own, u64_numeral, zero_fill,
};

verus! {

broadcast use vstd::string::group_string_axioms;

// ---------------------------------------------------------------- the calendar

/// Whether `y` is a leap year.
pub open spec fn is_leap(y: int) -> bool {
    y % 4 == 0 && (y % 100 != 0 || y % 400 == 0)
}

/// The number of days in month `m` of year `y`.
pub open spec fn month_days(y: int, m: int) -> int {
    if m == 2 {
        if is_leap(y) {
            29
        } else {
            28
        }
    } else if m == 4 || m == 6 || m == 9 || m == 11 {
        30
    } else {
        31
    }
}

/// Whether there is such a date.
pub open spec fn valid_date(y: int, m: int, d: int) -> bool {
    1 <= m <= 12 && 1 <= d <= month_days(y, m)
}

/// The number of leap years from year 1 to year `y`.
pub open spec fn leap_years(y: int) -> int {
    y / 4 - y / 100 + y / 400
}

/// The number of days in year `y` before month `m`.
pub open spec fn days_before_month(y: int, m: int) -> int
    decreases m,
{
    if m <= 1 {
        0
    } else {
        days_before_month(y, m - 1) + month_days(y, m - 1)
    }
}

/// The number of days from the first of January 1970 to a date.
pub open spec fn day_number(y: int, m: int, d: int) -> int {
    365 * (y - 1970) + leap_years(y - 1) - leap_years(1969) + days_before_month(y, m) + d - 1
}

/// The day after a date.
pub open spec fn next_day(y: int, m: int, d: int) -> (int, int, int) {
    if d < month_days(y, m) {
        (y, m, d + 1)
    } else if m < 12 {
        (y, m + 1, 1)
    } else {
        (y + 1, 1, 1)
    }
}

proof fn lemma_year_length(y: int)
    ensures
        days_before_month(y, 13) == if is_leap(y) {
            366int
        } else {
            365
        },
        leap_years(y) == leap_years(y - 1) + if is_leap(y) {
            1int
        } else {
            0
        },
{
    reveal_with_fuel(days_before_month, 14);
}

/// The count of days starts at the first of January 1970 and grows by one from each day to the
/// next.
pub proof fn lemma_day_number_counts(y: int, m: int, d: int)
    requires
        valid_date(y, m, d),
    ensures
        day_number(1970, 1, 1) == 0,
        ({
            let n = next_day(y, m, d);
            valid_date(n.0, n.1, n.2) && day_number(n.0, n.1, n.2) == day_number(y, m, d) + 1
        }),
{
    lemma_year_length(y);
}

proof fn lemma_month_order(y: int, a: int, b: int)
    requires
        1 <= a < b,
    ensures
        days_before_month(y, a) + month_days(y, a) <= days_before_month(y, b),
    decreases b,
{
    if a < b - 1 {
        lemma_month_order(y, a, b - 1);
    }
}

/// A later date has a greater day number, so each number has one date.
pub proof fn lemma_day_number_order(y: int, m: int, d: int, x: int, n: int, e: int)
    requires
        valid_date(y, m, d),
        valid_date(x, n, e),
        y < x || (y == x && (m < n || (m == n && d < e))),
    ensures
        day_number(y, m, d) < day_number(x, n, e),
{
    lemma_month_order(y, m, 13);
    if y == x {
        if m < n {
            lemma_month_order(y, m, n);
        }
    } else {
        lemma_year_length(y);
        if n > 1 {
            lemma_month_order(x, 1, n);
        }
        assert(leap_years(y) <= leap_years(x - 1)) by {
            lemma_leap_years_order(y, x - 1);
        }
    }
}

proof fn lemma_leap_years_order(a: int, b: int)
    requires
        a <= b,
    ensures
        leap_years(a) <= leap_years(b),
    decreases b - a,
{
    if a < b {
        lemma_leap_years_order(a, b - 1);
        lemma_year_length(b);
    }
}

/// The day count that the closed formula gives, for any year, month and day.
pub open spec fn days_formula(y: int, m: int, d: int) -> int {
    let z = if m <= 2 {
        y - 1
    } else {
        y
    };
    let mp = if m > 2 {
        m - 3
    } else {
        m + 9
    };
    let doy = (153 * mp + 2) / 5 + d - 1;
    let yoe = z % 400;
    z / 400 * 146_097 + (yoe * 365 + yoe / 4 - yoe / 100 + doy) - 719_468
}

/// Whether the closed formula can be computed in 64 bits, step by step.
pub open spec fn days_fit(y: int, m: int, d: int) -> bool {
    let z = if m <= 2 {
        y - 1
    } else {
        y
    };
    let c = z / 400 * 146_097;
    &&& i64::MIN + 399 <= z
    &&& i64::MIN <= c
    &&& days_formula(y, m, d) + 719_468 <= i64::MAX
    &&& i64::MIN <= days_formula(y, m, d)
}

/// On every date the formula gives the day number.
pub proof fn lemma_days_formula(y: int, m: int, d: int)
    requires
        valid_date(y, m, d),
    ensures
        days_formula(y, m, d) == day_number(y, m, d),
{
    reveal_with_fuel(days_before_month, 13);
    lemma_year_length(y);
    lemma_leap_split(y);
    lemma_leap_split(y - 1);
}

proof fn lemma_leap_split(y: int)
    ensures
        leap_years(y) == 97 * (y / 400) + (y % 400) / 4 - (y % 400) / 100,
{
    let e = y / 400;
    let r = y % 400;
    assert(y == 400 * e + r);
    assert(y / 4 == 100 * e + r / 4);
    assert(y / 100 == 4 * e + r / 100);
}

/// `a / b`, rounded down.
pub fn floor_div(a: i64, b: i64) -> (r: i64)
    requires
        0 < b < 0x1_0000_0000,
    ensures
        r == a as int / b as int,
{
    if a >= 0 {
        a / b
    } else {
        let k: i128 = (b as i128 - 1 - a as i128) / b as i128;
        proof {
            let x = a as int;
            let y = b as int;
            vstd::arithmetic::div_mod::lemma_fundamental_div_mod(y - 1 - x, y);
            let rem = (y - 1 - x) % y;
            assert(x == y * (-k) + (y - 1 - rem)) by (nonlinear_arith)
                requires
                    y - 1 - x == y * k + rem,
            ;
            vstd::arithmetic::div_mod::lemma_fundamental_div_mod_converse(
                x,
                y,
                -k,
                y - 1 - rem,
            );
            assert(k <= y - 1 - x) by (nonlinear_arith)
                requires
                    y - 1 - x == y * k + rem,
                    y >= 1,
                    rem >= 0,
                    y - 1 - x >= 0,
            ;
            assert(y * k <= y - 1 - x);
            assert(k <= 0x8000_0000_0000_0000) by (nonlinear_arith)
                requires
                    y * k <= y - 1 - x,
                    x >= -0x8000_0000_0000_0000,
                    y >= 1,
            ;
        }
        (-k) as i64
    }
}

/// The number of days from the first of January 1970 to a date.
pub fn days_from_civil(y: i64, m: u32, d: u32) -> (r: i64)
    requires
        days_fit(y as int, m as int, d as int),
    ensures
        r == days_formula(y as int, m as int, d as int),
        valid_date(y as int, m as int, d as int) ==> r == day_number(y as int, m as int, d as int),
{
    let z: i128 = if m <= 2 {
        y as i128 - 1
    } else {
        y as i128
    };
    let era: i128 = if z >= 0 {
        z / 400
    } else {
        -((399 - z) / 400)
    };
    proof {
        assert(era == (z as int) / 400) by {
            if z < 0 {
                let k = (399 - z) / 400;
                assert((z as int) / 400 == -k);
            }
        }
        if valid_date(y as int, m as int, d as int) {
            lemma_days_formula(y as int, m as int, d as int);
        }
    }
    let yoe: i128 = z - era * 400;
    assert(yoe == (z as int) % 400);
    let mp: i128 = if m > 2 {
        m as i128 - 3
    } else {
        m as i128 + 9
    };
    let doy: i128 = (153 * mp + 2) / 5 + d as i128 - 1;
    let doe: i128 = yoe * 365 + yoe / 4 - yoe / 100 + doy;
    (era * 146_097 + doe - 719_468) as i64
}

/// The date that many days after the first of January 1970.
pub fn civil_from_days(z: i64) -> (r: (i64, u32, u32))
    requires
        z <= i64::MAX - 719_468,
    ensures
        valid_date(r.0 as int, r.1 as int, r.2 as int),
        day_number(r.0 as int, r.1 as int, r.2 as int) == z,
{
    let t: i64 = z + 719_468;
    let era: i64 = floor_div(t, 146_097);
    let doe: i64 = (t as i128 - era as i128 * 146_097) as i64;
    let mut century: i64 = doe / 36_524;
    if century > 3 {
        century = 3;
    }
    let in_century: i64 = doe - century * 36_524;
    let cycle: i64 = in_century / 1_461;
    let in_cycle: i64 = in_century % 1_461;
    let mut year: i64 = in_cycle / 365;
    if year > 3 {
        year = 3;
    }
    let doy: i64 = in_cycle - year * 365;
    let yoe: i64 = century * 100 + cycle * 4 + year;
    let mp: i64 = (5 * doy + 2) / 153;
    let d: i64 = doy - (153 * mp + 2) / 5 + 1;
    let m: i64 = if mp < 10 {
        mp + 3
    } else {
        mp - 9
    };
    let y0: i64 = era * 400 + yoe;
    let y: i64 = if m <= 2 {
        y0 + 1
    } else {
        y0
    };
    proof {
        assert(0 <= in_century <= 36_524);
        assert(0 <= cycle <= 24);
        assert(0 <= doy <= 365);
        assert(0 <= mp <= 11);
        assert(yoe / 4 == century * 25 + cycle);
        assert(yoe / 100 == century);
        assert(doe == yoe * 365 + yoe / 4 - yoe / 100 + doy);
        assert(0 <= yoe < 400);
        assert((y0 as int) / 400 == era && (y0 as int) % 400 == yoe);
        assert(1 <= m <= 12);
        assert(days_formula(y as int, m as int, d as int) == z);
        if doy == 365 {
            assert(year == 3);
            assert(is_leap(y0 + 1));
        }
        assert(valid_date(y as int, m as int, d as int));
        lemma_days_formula(y as int, m as int, d as int);
    }
    (y, m as u32, d as u32)
}

/// A day number and its date determine each other.
pub proof fn lemma_civil_round_trip(y: int, m: int, d: int, x: int, n: int, e: int)
    requires
        valid_date(y, m, d),
        valid_date(x, n, e),
    ensures
        day_number(y, m, d) == day_number(x, n, e) <==> (y, m, d) == (x, n, e),
{
    if y < x || (y == x && (m < n || (m == n && d < e))) {
        lemma_day_number_order(y, m, d, x, n, e);
    }
    if x < y || (x == y && (n < m || (n == m && e < d))) {
        lemma_day_number_order(x, n, e, y, m, d);
    }
}

/// An integer in at least `w` characters, with zeros in front; a minus sign counts.
pub open spec fn padded_int(i: int, w: nat) -> Seq<char> {
    if i < 0 {
        seq!['-'] + zero_fill(numeral((-i) as nat), (w - 1) as nat)
    } else {
        zero_fill(numeral(i as nat), w)
    }
}

/// Whether `t` is the date of day `n` as YYYYMMDD.
pub open spec fn is_day_text(t: Seq<char>, n: int) -> bool {
    exists|y: int, m: int, d: int| #[trigger]
        valid_date(y, m, d) && day_number(y, m, d) == n && t == padded_int(y, 4) + zero_fill(
            numeral(m as nat),
            2,
        ) + zero_fill(numeral(d as nat), 2)
}

/// The last day of year 9999, which is the last that has eight digits.
pub const LAST_DAY: i64 = 2_932_896;

/// The text of a day has eight digits, and the date can be read from them.
pub proof fn lemma_day_text_reads(t: Seq<char>, n: int)
    requires
        is_day_text(t, n),
        0 <= n <= LAST_DAY,
    ensures
        t.len() == 8,
        all_digits(t),
        ({
            let y = number(t.subrange(0, 4)) as int;
            let m = number(t.subrange(4, 6)) as int;
            let d = number(t.subrange(6, 8)) as int;
            valid_date(y, m, d) && day_number(y, m, d) == n && days_formula(y, m, d) == n
        }),
{
    let (y, m, d) = choose|y: int, m: int, d: int| #[trigger]
        valid_date(y, m, d) && day_number(y, m, d) == n && t == padded_int(y, 4) + zero_fill(
            numeral(m as nat),
            2,
        ) + zero_fill(numeral(d as nat), 2);
    assert(0 <= y < 10_000) by {
        assert(valid_date(1970, 1, 1) && valid_date(10_000, 1, 1));
        assert(day_number(1970, 1, 1) == 0);
        assert(day_number(10_000, 1, 1) == LAST_DAY + 1);
        if y < 1970 {
            lemma_day_number_order(y, m, d, 1970, 1, 1);
        } else if y > 10_000 || (y == 10_000 && (m > 1 || d > 1)) {
            lemma_day_number_order(10_000, 1, 1, y, m, d);
        }
    }
    reveal_with_fuel(ten, 5);
    assert(ten(4) == 10_000 && ten(2) == 100);
    let a = zero_fill(numeral(y as nat), 4);
    let b = zero_fill(numeral(m as nat), 2);
    let c = zero_fill(numeral(d as nat), 2);
    lemma_filled(y as nat, 4);
    lemma_filled(m as nat, 2);
    lemma_filled(d as nat, 2);
    assert(t == a + b + c);
    assert(t.subrange(0, 4) =~= a);
    assert(t.subrange(4, 6) =~= b);
    assert(t.subrange(6, 8) =~= c);
    assert forall|i: int| 0 <= i < t.len() implies is_digit(#[trigger] t[i]) by {
        if i < 4 {
            assert(t[i] == a[i]);
        } else if i < 6 {
            assert(t[i] == b[i - 4]);
        } else {
            assert(t[i] == c[i - 6]);
        }
    }
    lemma_days_formula(y, m, d);
}

/// The date of a time in seconds since 1970, as YYYYMMDD.
pub fn day_of(secs: i64) -> (r: String)
    ensures
        is_day_text(r@, secs as int / 86_400),
{
    day_text(floor_div(secs, 86_400))
}

/// The local date at a time in seconds since 1970, as YYYYMMDD, where the clock is `offset`
/// seconds ahead of UTC.
pub fn today(secs: i64, offset: i64) -> (r: String)
    ensures
        is_day_text(r@, secs.wrapping_add(offset) as int / 86_400),
{
    day_of(secs.wrapping_add(offset))
}

/// The date of a day since 1970, as YYYYMMDD.
pub fn day_text(days: i64) -> (r: String)
    requires
        days <= i64::MAX - 719_468,
    ensures
        is_day_text(r@, days as int),
{
    let (y, m, d) = civil_from_days(days);
    let mut s = String::new();
    if y < 0 {
        s.push('-');
        s.append(filled((-(y as i128)) as u64, 3).as_str());
    } else {
        s.append(filled(y as u64, 4).as_str());
    }
    assert(s@ =~= padded_int(y as int, 4));
    s.append(filled(m as u64, 2).as_str());
    s.append(filled(d as u64, 2).as_str());
    assert(valid_date(y as int, m as int, d as int));
    s
}

// ---------------------------------------------------------------- the log

/// A number for the log: integers without a point, other numbers with one place.
pub open spec fn field_text(v: Option<Double>) -> Seq<char> {
    match v {
        Some(x) => if is_whole(x) {
            int_text(saturated(x, i64::MIN as int, i64::MAX as int))
        } else {
            fixed(x, 1)
        },
        None => seq![],
    }
}

/// A number for the log: integers without a point, other numbers with one place.
pub fn fmt(v: Option<Double>) -> (r: String)
    ensures
        r@ == field_text(v),
{
    match v {
        Some(x) => {
            if x.whole() {
                i64_numeral(x.to_range(i64::MIN as i128, i64::MAX as i128) as i64)
            } else {
                fixed_text(x, 1)
            }
        },
        None => {
            let s = String::new();
            assert(s@ =~= seq![]);
            s
        },
    }
}

/// One row of the log.
pub open spec fn log_row(ts: u64, name: Seq<char>, g: Gpu) -> Seq<char> {
    numeral(ts as nat) + seq![','] + name + seq![','] + numeral(g.index as nat) + seq![',']
        + field_text(g.power) + seq![','] + field_text(g.power_limit) + seq![','] + field_text(
        g.util,
    ) + seq![','] + field_text(g.temp) + seq!['\n']
}

/// The rows of the first `n` cards.
pub open spec fn log_rows(ts: u64, name: Seq<char>, gpus: Seq<Gpu>, n: int) -> Seq<char>
    decreases n,
{
    if n <= 0 {
        seq![]
    } else {
        log_rows(ts, name, gpus, n - 1) + log_row(ts, name, gpus[n - 1])
    }
}

/// The first line of a new log.
pub open spec fn header() -> Seq<char> {
    "ts,server,gpu_index,watts,watt_limit,util,temp\n"@
}

/// The first line of a new log.
pub fn log_header() -> (r: &'static str)
    ensures
        r@ == "ts,server,gpu_index,watts,watt_limit,util,temp\n"@,
        r@ == header(),
{
    "ts,server,gpu_index,watts,watt_limit,util,temp\n"
}

fn push_row(s: &mut String, ts: u64, name: &str, g: &Gpu)
    ensures
        final(s)@ == old(s)@ + log_row(ts, name@, *g),
{
    let ghost b = s@;
    s.append(u64_numeral(ts).as_str());
    s.push(',');
    s.append(name);
    s.push(',');
    s.append(u64_numeral(g.index as u64).as_str());
    s.push(',');
    s.append(fmt(g.power).as_str());
    s.push(',');
    s.append(fmt(g.power_limit).as_str());
    s.push(',');
    s.append(fmt(g.util).as_str());
    s.push(',');
    s.append(fmt(g.temp).as_str());
    s.push('\n');
    assert(s@ =~= b + log_row(ts, name@, *g));
}

/// What is to be added to the log: to the file that is open, or to another one that has to be
/// opened first.
pub struct Append {
    /// The day of the rows.
    pub day: String,
    /// The name of the file to open, where the day is a new one.
    pub file: Option<String>,
    /// The rows.
    pub rows: String,
}

/// Whether `a` is what is to be added to the log at the time `secs`, with rows stamped `ts`,
/// where the file of `day` is open and the clock is `offset` seconds ahead of UTC. The log goes
/// by the local date.
pub open spec fn is_append(
    a: Append,
    day: Seq<char>,
    secs: i64,
    offset: i64,
    ts: u64,
    name: Seq<char>,
    gpus: Seq<Gpu>,
) -> bool {
    &&& is_day_text(a.day@, secs.wrapping_add(offset) as int / 86_400)
    &&& match a.file {
        Some(f) => a.day@ != day && f@ == "power-"@ + a.day@ + ".csv"@,
        None => a.day@ == day,
    }
    &&& a.rows@ == log_rows(ts, name, gpus, gpus.len() as int)
}

/// The last `n` of a sequence.
pub open spec fn last_of(s: Seq<Double>, n: nat) -> Seq<Double> {
    if s.len() > n {
        s.skip(s.len() - n)
    } else {
        s
    }
}

/// The power history of every server, and where the log stands.
pub struct PowerLog {
    pub points: usize,
    pub enabled: bool,
    pub hist: Table<Vec<Double>>,
    pub day: String,
}

impl PowerLog {
    /// The window of the server called `name`, oldest first.
    pub open spec fn window(self, name: Seq<char>) -> Seq<Double> {
        match lookup(self.hist@, name) {
            Some(v) => v@,
            None => seq![],
        }
    }

    /// An empty history that keeps that many points, and two at least.
    pub fn new(points: usize, enabled: bool) -> (r: PowerLog)
        ensures
            r.points == if points < 2 {
                2
            } else {
                points
            },
            r.enabled == enabled,
            forall|name: Seq<char>| #[trigger] r.window(name) == Seq::<Double>::empty(),
            r.day@ == Seq::<char>::empty(),
    {
        PowerLog {
            points: if points < 2 {
                2
            } else {
                points
            },
            enabled,
            hist: Table::new(),
            day: String::new(),
        }
    }

    /// Takes in what a server draws, and says what is to be added to the log: at the time
    /// `secs`, with rows stamped `ts`, by a clock that is `offset` seconds ahead of UTC.
    pub fn record(
        &mut self,
        name: &str,
        watts: Double,
        gpus: &[Gpu],
        secs: i64,
        offset: i64,
        ts: u64,
    ) -> (r: Option<Append>)
        ensures
            final(self).window(name@) == last_of(
                old(self).window(name@).push(watts),
                old(self).points as nat,
            ),
            forall|n: Seq<char>|
                n != name@ ==> #[trigger] final(self).window(n) == old(self).window(n),
            final(self).points == old(self).points,
            final(self).enabled == old(self).enabled,
            final(self).day@ == old(self).day@,
            match r {
                Some(a) => old(self).enabled && is_append(
                    a,
                    old(self).day@,
                    secs,
                    offset,
                    ts,
                    name@,
                    gpus@,
                ),
                None => !old(self).enabled,
            },
    {
        let ghost before_all = self.hist@;
        let mut h: Vec<Double> = self.series(name);
        h.push(watts);
        let kept: Vec<Double> = keep_last(h, self.points);
        self.hist.insert(own(name), kept);
        proof {
            lemma_put_lookup(before_all, name@, kept, name@);
            assert forall|n: Seq<char>| n != name@ implies #[trigger] self.window(n)
                == old(self).window(n) by {
                lemma_put_lookup(before_all, name@, kept, n);
            }
        }
        if self.enabled {
            Some(self.append(name, gpus, secs, offset, ts))
        } else {
            None
        }
    }

    fn append(&self, name: &str, gpus: &[Gpu], secs: i64, offset: i64, ts: u64) -> (r: Append)
        ensures
            is_append(r, self.day@, secs, offset, ts, name@, gpus@),
    {
        let day: String = today(secs, offset);
        let file: Option<String> = if eq_str(day.as_str(), self.day.as_str()) {
            None
        } else {
            let mut f = own("power-");
            f.append(day.as_str());
            f.append(".csv");
            Some(f)
        };
        let mut rows = String::new();
        let mut i: usize = 0;
        assert(rows@ =~= log_rows(ts, name@, gpus@, 0));
        while i < gpus.len()
            invariant
                i <= gpus@.len(),
                rows@ == log_rows(ts, name@, gpus@, i as int),
            decreases gpus@.len() - i,
        {
            push_row(&mut rows, ts, name, &gpus[i]);
            i = i + 1;
        }
        Append { day, file, rows }
    }

    /// Notes that the file of `day` is open.
    pub fn opened(&mut self, day: String)
        ensures
            final(self).day == day,
            final(self).hist == old(self).hist,
            final(self).points == old(self).points,
            final(self).enabled == old(self).enabled,
    {
        self.day = day;
    }

    /// Gives the log up; the history goes on. Logging must never take the collector down.
    pub fn failed(&mut self)
        ensures
            !final(self).enabled,
            final(self).hist == old(self).hist,
            final(self).points == old(self).points,
            final(self).day == old(self).day,
    {
        self.enabled = false;
    }

    /// The window of the server called `name`, oldest first.
    pub fn series(&self, name: &str) -> (r: Vec<Double>)
        ensures
            r@ == self.window(name@),
    {
        match self.hist.get(name) {
            Some(v) => copy_all(v),
            None => {
                let v: Vec<Double> = Vec::new();
                assert(v@ =~= seq![]);
                v
            },
        }
    }
}

/// A copy of a series.
pub fn copy_all(v: &Vec<Double>) -> (r: Vec<Double>)
    ensures
        r@ == v@,
{
    let mut out: Vec<Double> = Vec::new();
    let mut i: usize = 0;
    while i < v.len()
        invariant
            i <= v@.len(),
            out@ == v@.take(i as int),
        decreases v@.len() - i,
    {
        proof {
            assert(v@.take(i + 1) =~= v@.take(i as int).push(v@[i as int]));
        }
        out.push(v[i]);
        i = i + 1;
    }
    proof {
        assert(v@.take(v@.len() as int) =~= v@);
    }
    out
}

fn keep_last(v: Vec<Double>, n: usize) -> (r: Vec<Double>)
    ensures
        r@ == last_of(v@, n as nat),
{
    if v.len() <= n {
        return v;
    }
    let cut: usize = v.len() - n;
    let mut out: Vec<Double> = Vec::new();
    let mut i: usize = cut;
    while i < v.len()
        invariant
            cut <= i <= v@.len(),
            out@ == v@.subrange(cut as int, i as int),
        decreases v@.len() - i,
    {
        proof {
            assert(v@.subrange(cut as int, i + 1) =~= v@.subrange(cut as int, i as int).push(
                v@[i as int],
            ));
        }
        out.push(v[i]);
        i = i + 1;
    }
    assert(out@ =~= v@.skip(cut as int));
    out
}

} // verus!
