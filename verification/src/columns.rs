//! What stands in the columns of the power log.

use vstd::prelude::*;
use crate::decimal::{lemma_numeral_number, parsed, scaled, ten};
use crate::double::{half_even, is_whole, one, Double};
use crate::gate::{is_plain, lemma_fixed_reads};
use crate::json::{lemma_integer_text, plain_integer, unsigned_zero};
use crate::model::Gpu;
use crate::pieces::{is_without, lemma_commas_split, lemma_lines_add, with_commas};
use crate::power::{field_text, header, log_row, log_rows};
use crate::text::{is_digit, lines, numeral, split};

verus! {

broadcast use vstd::string::group_string_axioms;

/// A number rounded to tenths.
pub open spec fn tenths(x: Double) -> Double {
    scaled(x.negative(), half_even(x.size() * 10, one()), -1)
}

/// The law of a field: a number that is not reported leaves it empty, an integer is read as
/// itself, and any other number as it is rounded to tenths.
pub proof fn lemma_field_reads(v: Option<Double>)
    ensures
        v is None ==> field_text(v).len() == 0,
        v is Some && plain_integer(v->0) ==> parsed(field_text(v)) == Some(unsigned_zero(v->0)),
        v is Some && (v->0).finite() && !is_whole(v->0) ==> parsed(field_text(v)) == Some(
            tenths(v->0),
        ),
{
    if let Some(x) = v {
        if plain_integer(x) {
            lemma_integer_text(x);
        } else if x.finite() && !is_whole(x) {
            lemma_fixed_reads(x, 1);
            reveal_with_fuel(ten, 3);
            assert(ten(1) == 10);
        }
    }
}

proof fn lemma_numeral_plain(n: nat)
    ensures
        is_plain(numeral(n)),
        numeral(n).len() > 0,
{
    lemma_numeral_number(n);
    let t = numeral(n);
    assert forall|i: int| 0 <= i < t.len() implies is_digit(#[trigger] t[i]) by {}
}

#[verifier::rlimit(40)]
proof fn lemma_field_chars(v: Option<Double>)
    ensures
        is_without(field_text(v), ','),
        is_without(field_text(v), '\n'),
        is_without(field_text(v), '\r'),
{
    let t = field_text(v);
    if let Some(x) = v {
        if is_whole(x) {
            let i = crate::double::saturated(x, i64::MIN as int, i64::MAX as int);
            if i < 0 {
                lemma_numeral_plain((-i) as nat);
                let n = numeral((-i) as nat);
                assert forall|k: int| 0 <= k < t.len() implies #[trigger] t[k] != ',' && t[k]
                    != '\n' && t[k] != '\r' by {
                    if k > 0 {
                        assert(t[k] == n[k - 1]);
                    }
                }
            } else {
                lemma_numeral_plain(i as nat);
            }
        } else if x.finite() {
            lemma_fixed_reads(x, 1);
        } else {
            reveal_strlit("NaN");
            reveal_strlit("inf");
            let w = if x.nan() {
                "NaN"@
            } else {
                "inf"@
            };
            assert(w.len() == 3);
            assert(w[0] != ',' && w[1] != ',' && w[2] != ',');
            assert forall|k: int| 0 <= k < t.len() implies #[trigger] t[k] != ',' && t[k] != '\n'
                && t[k] != '\r' by {
                let o = t.len() - 3;
                if k >= o {
                    assert(t[k] == w[k - o]);
                    assert(k - o == 0 || k - o == 1 || k - o == 2);
                }
            }
        }
    }
}

/// The names of the columns.
#[verifier::rlimit(40)]
proof fn lemma_header_names()
    ensures
        split("ts,server,gpu_index,watts,watt_limit,util,temp\n"@.drop_last(), ',') == seq![
            "ts"@,
            "server"@,
            "gpu_index"@,
            "watts"@,
            "watt_limit"@,
            "util"@,
            "temp"@,
        ],
        "ts,server,gpu_index,watts,watt_limit,util,temp\n"@.last() == '\n',
{
    reveal_strlit("ts,server,gpu_index,watts,watt_limit,util,temp\n");
    reveal_strlit("ts");
    reveal_strlit("server");
    reveal_strlit("gpu_index");
    reveal_strlit("watts");
    reveal_strlit("watt_limit");
    reveal_strlit("util");
    reveal_strlit("temp");
    let h = "ts,server,gpu_index,watts,watt_limit,util,temp\n"@;
    let ts = seq![
        "ts"@,
        "server"@,
        "gpu_index"@,
        "watts"@,
        "watt_limit"@,
        "util"@,
        "temp"@,
    ];
    assert(h.len() == 47);
    assert(ts[0].len() == 2);
    assert(ts[1].len() == 6);
    assert(ts[2].len() == 9);
    assert(ts[3].len() == 5);
    assert(ts[4].len() == 10);
    assert(ts[5].len() == 4);
    assert(ts[6].len() == 4);
    let r6 = ts.skip(6);
    let r5 = ts.skip(5);
    let r4 = ts.skip(4);
    let r3 = ts.skip(3);
    let r2 = ts.skip(2);
    let r1 = ts.skip(1);
    let r0 = ts.skip(0);
    assert(r0.skip(1) =~= r1);
    assert(r0[0] == ts[0]);
    assert(r1.skip(1) =~= r2);
    assert(r1[0] == ts[1]);
    assert(r2.skip(1) =~= r3);
    assert(r2[0] == ts[2]);
    assert(r3.skip(1) =~= r4);
    assert(r3[0] == ts[3]);
    assert(r4.skip(1) =~= r5);
    assert(r4[0] == ts[4]);
    assert(r5.skip(1) =~= r6);
    assert(r5[0] == ts[5]);
    assert(r6.len() == 1 && r6[0] == ts[6]);
    assert(r0 =~= ts);
    assert(with_commas(r6) == ts[6]);
    assert(with_commas(r5) == ts[5] + seq![','] + with_commas(r6));
    assert(with_commas(r4) == ts[4] + seq![','] + with_commas(r5));
    assert(with_commas(r3) == ts[3] + seq![','] + with_commas(r4));
    assert(with_commas(r2) == ts[2] + seq![','] + with_commas(r3));
    assert(with_commas(r1) == ts[1] + seq![','] + with_commas(r2));
    assert(with_commas(r0) == ts[0] + seq![','] + with_commas(r1));
    assert(with_commas(ts) =~= h.drop_last());
    assert(is_without("ts"@, ',')) by {
        let w = "ts"@;
        assert(w[0] == 't');
        assert(w[1] == 's');
        assert forall|i: int| 0 <= i < w.len() implies #[trigger] w[i] != ',' by {
            assert(i == 0 || i == 1);
        }
    }
    assert(is_without("server"@, ',')) by {
        let w = "server"@;
        assert(w[0] == 's');
        assert(w[1] == 'e');
        assert(w[2] == 'r');
        assert(w[3] == 'v');
        assert(w[4] == 'e');
        assert(w[5] == 'r');
        assert forall|i: int| 0 <= i < w.len() implies #[trigger] w[i] != ',' by {
            assert(i == 0 || i == 1 || i == 2 || i == 3 || i == 4 || i == 5);
        }
    }
    assert(is_without("gpu_index"@, ',')) by {
        let w = "gpu_index"@;
        assert(w[0] == 'g');
        assert(w[1] == 'p');
        assert(w[2] == 'u');
        assert(w[3] == '_');
        assert(w[4] == 'i');
        assert(w[5] == 'n');
        assert(w[6] == 'd');
        assert(w[7] == 'e');
        assert(w[8] == 'x');
        assert forall|i: int| 0 <= i < w.len() implies #[trigger] w[i] != ',' by {
            assert(i == 0 || i == 1 || i == 2 || i == 3 || i == 4 || i == 5 || i == 6 || i == 7 || i == 8);
        }
    }
    assert(is_without("watts"@, ',')) by {
        let w = "watts"@;
        assert(w[0] == 'w');
        assert(w[1] == 'a');
        assert(w[2] == 't');
        assert(w[3] == 't');
        assert(w[4] == 's');
        assert forall|i: int| 0 <= i < w.len() implies #[trigger] w[i] != ',' by {
            assert(i == 0 || i == 1 || i == 2 || i == 3 || i == 4);
        }
    }
    assert(is_without("watt_limit"@, ',')) by {
        let w = "watt_limit"@;
        assert(w[0] == 'w');
        assert(w[1] == 'a');
        assert(w[2] == 't');
        assert(w[3] == 't');
        assert(w[4] == '_');
        assert(w[5] == 'l');
        assert(w[6] == 'i');
        assert(w[7] == 'm');
        assert(w[8] == 'i');
        assert(w[9] == 't');
        assert forall|i: int| 0 <= i < w.len() implies #[trigger] w[i] != ',' by {
            assert(i == 0 || i == 1 || i == 2 || i == 3 || i == 4 || i == 5 || i == 6 || i == 7 || i == 8 || i == 9);
        }
    }
    assert(is_without("util"@, ',')) by {
        let w = "util"@;
        assert(w[0] == 'u');
        assert(w[1] == 't');
        assert(w[2] == 'i');
        assert(w[3] == 'l');
        assert forall|i: int| 0 <= i < w.len() implies #[trigger] w[i] != ',' by {
            assert(i == 0 || i == 1 || i == 2 || i == 3);
        }
    }
    assert(is_without("temp"@, ',')) by {
        let w = "temp"@;
        assert(w[0] == 't');
        assert(w[1] == 'e');
        assert(w[2] == 'm');
        assert(w[3] == 'p');
        assert forall|i: int| 0 <= i < w.len() implies #[trigger] w[i] != ',' by {
            assert(i == 0 || i == 1 || i == 2 || i == 3);
        }
    }
    assert forall|i: int| 0 <= i < ts.len() implies is_without(#[trigger] ts[i], ',') by {
        assert(i == 0 || i == 1 || i == 2 || i == 3 || i == 4 || i == 5 || i == 6);
    }
    lemma_commas_split(ts);
}

/// What stands in a column of the row of a card, by the name of the column.
pub open spec fn cell(column: Seq<char>, ts: u64, server: Seq<char>, g: Gpu) -> Seq<char> {
    if column == "ts"@ {
        numeral(ts as nat)
    } else if column == "server"@ {
        server
    } else if column == "gpu_index"@ {
        numeral(g.index as nat)
    } else if column == "watts"@ {
        field_text(g.power)
    } else if column == "watt_limit"@ {
        field_text(g.power_limit)
    } else if column == "util"@ {
        field_text(g.util)
    } else if column == "temp"@ {
        field_text(g.temp)
    } else {
        seq![]
    }
}

#[verifier::rlimit(40)]
proof fn lemma_seven(
    a: Seq<char>,
    b: Seq<char>,
    c: Seq<char>,
    d: Seq<char>,
    e: Seq<char>,
    f: Seq<char>,
    g: Seq<char>,
)
    ensures
        with_commas(seq![a, b, c, d, e, f, g]) == a + seq![','] + b + seq![','] + c + seq![','] + d
            + seq![','] + e + seq![','] + f + seq![','] + g,
{
    let t = seq![a, b, c, d, e, f, g];
    let r6 = t.skip(6);
    let r5 = t.skip(5);
    let r4 = t.skip(4);
    let r3 = t.skip(3);
    let r2 = t.skip(2);
    let r1 = t.skip(1);
    let r0 = t.skip(0);
    assert(r0.skip(1) =~= r1);
    assert(r0[0] == t[0]);
    assert(r1.skip(1) =~= r2);
    assert(r1[0] == t[1]);
    assert(r2.skip(1) =~= r3);
    assert(r2[0] == t[2]);
    assert(r3.skip(1) =~= r4);
    assert(r3[0] == t[3]);
    assert(r4.skip(1) =~= r5);
    assert(r4[0] == t[4]);
    assert(r5.skip(1) =~= r6);
    assert(r5[0] == t[5]);
    assert(r6.len() == 1 && r6[0] == t[6]);
    assert(r0 =~= t);
    assert(with_commas(r6) == t[6]);
    assert(with_commas(r5) == t[5] + seq![','] + with_commas(r6));
    assert(with_commas(r4) == t[4] + seq![','] + with_commas(r5));
    assert(with_commas(r3) == t[3] + seq![','] + with_commas(r4));
    assert(with_commas(r2) == t[2] + seq![','] + with_commas(r3));
    assert(with_commas(r1) == t[1] + seq![','] + with_commas(r2));
    assert(with_commas(r0) == t[0] + seq![','] + with_commas(r1));
    assert(with_commas(t) =~= a + seq![','] + b + seq![','] + c + seq![','] + d + seq![','] + e
        + seq![','] + f + seq![','] + g);
}

proof fn lemma_row_fields(ts: u64, server: Seq<char>, g: Gpu)
    requires
        is_without(server, ','),
    ensures
        log_row(ts, server, g).last() == '\n',
        split(log_row(ts, server, g).drop_last(), ',') == seq![
            numeral(ts as nat),
            server,
            numeral(g.index as nat),
            field_text(g.power),
            field_text(g.power_limit),
            field_text(g.util),
            field_text(g.temp),
        ],
{
    lemma_numeral_plain(ts as nat);
    lemma_numeral_plain(g.index as nat);
    lemma_field_chars(g.power);
    lemma_field_chars(g.power_limit);
    lemma_field_chars(g.util);
    lemma_field_chars(g.temp);
    let c = seq![
        numeral(ts as nat),
        server,
        numeral(g.index as nat),
        field_text(g.power),
        field_text(g.power_limit),
        field_text(g.util),
        field_text(g.temp),
    ];
    lemma_seven(c[0], c[1], c[2], c[3], c[4], c[5], c[6]);
    assert(with_commas(c) =~= log_row(ts, server, g).drop_last());
    assert forall|i: int| 0 <= i < c.len() implies is_without(#[trigger] c[i], ',') by {
        assert(i == 0 || i == 1 || i == 2 || i == 3 || i == 4 || i == 5 || i == 6);
    }
    lemma_commas_split(c);
}

proof fn lemma_cells(ts: u64, server: Seq<char>, g: Gpu)
    ensures
        cell("ts"@, ts, server, g) == numeral(ts as nat),
        cell("server"@, ts, server, g) == server,
        cell("gpu_index"@, ts, server, g) == numeral(g.index as nat),
        cell("watts"@, ts, server, g) == field_text(g.power),
        cell("watt_limit"@, ts, server, g) == field_text(g.power_limit),
        cell("util"@, ts, server, g) == field_text(g.util),
        cell("temp"@, ts, server, g) == field_text(g.temp),
{
    reveal_strlit("ts");
    reveal_strlit("server");
    reveal_strlit("gpu_index");
    reveal_strlit("watts");
    reveal_strlit("watt_limit");
    reveal_strlit("util");
    reveal_strlit("temp");
    assert("ts"@.len() == 2);
    assert("server"@.len() == 6);
    assert("gpu_index"@.len() == 9);
    assert("watts"@.len() == 5);
    assert("watt_limit"@.len() == 10);
    assert("util"@.len() == 4);
    assert("temp"@.len() == 4);
    assert("util"@[0] != "temp"@[0]);
}

/// The law of the columns: a row has as many fields as the header has columns, and each field is
/// the quantity that its column names.
pub proof fn lemma_row_columns(ts: u64, server: Seq<char>, g: Gpu)
    requires
        is_without(server, ','),
    ensures
        header().last() == '\n',
        log_row(ts, server, g).last() == '\n',
        ({
            let names = split(header().drop_last(), ',');
            let row = split(log_row(ts, server, g).drop_last(), ',');
            &&& names.len() == 7
            &&& row.len() == names.len()
            &&& forall|j: int|
                0 <= j < row.len() ==> #[trigger] row[j] == cell(names[j], ts, server, g)
        }),
{
    lemma_header_names();
    lemma_row_fields(ts, server, g);
    lemma_cells(ts, server, g);
    let names = split(header().drop_last(), ',');
    let row = split(log_row(ts, server, g).drop_last(), ',');
    assert(names.len() == 7 && row.len() == 7);
    assert forall|j: int| 0 <= j < row.len() implies #[trigger] row[j] == cell(
        names[j],
        ts,
        server,
        g,
    ) by {
        assert(j == 0 || j == 1 || j == 2 || j == 3 || j == 4 || j == 5 || j == 6);
    }
}

/// Every card has its row, in the order of the cards.
#[verifier::rlimit(40)]
pub proof fn lemma_rows_of_cards(ts: u64, server: Seq<char>, gpus: Seq<Gpu>, n: int)
    requires
        0 <= n <= gpus.len(),
        is_without(server, '\n'),
    ensures
        log_rows(ts, server, gpus, n).len() == 0 || log_rows(ts, server, gpus, n).last() == '\n',
        lines(log_rows(ts, server, gpus, n)).len() == n,
        forall|i: int|
            0 <= i < n ==> #[trigger] lines(log_rows(ts, server, gpus, n))[i] == log_row(
                ts,
                server,
                gpus[i],
            ).drop_last(),
    decreases n,
{
    if n > 0 {
        lemma_rows_of_cards(ts, server, gpus, n - 1);
        let t = log_rows(ts, server, gpus, n - 1);
        let g = gpus[n - 1];
        let row = log_row(ts, server, g);
        let l = row.drop_last();
        lemma_numeral_plain(ts as nat);
        lemma_numeral_plain(g.index as nat);
        lemma_field_chars(g.power);
        lemma_field_chars(g.power_limit);
        lemma_field_chars(g.util);
        lemma_field_chars(g.temp);
        let head = numeral(ts as nat) + seq![','] + server + seq![','] + numeral(g.index as nat)
            + seq![','] + field_text(g.power) + seq![','] + field_text(g.power_limit) + seq![',']
            + field_text(g.util) + seq![','];
        assert(l =~= head + field_text(g.temp));
        lemma_parts_without(ts, server, g);
        assert(l.last() != '\r') by {
            if field_text(g.temp).len() > 0 {
                assert(l.last() == field_text(g.temp)[field_text(g.temp).len() - 1]);
            } else {
                assert(l.last() == ',');
            }
        }
        assert(t + row =~= t + l + seq!['\n']);
        lemma_lines_add(t, l);
    } else {
        assert(lines(log_rows(ts, server, gpus, 0)) =~= seq![]);
    }
}

proof fn lemma_join_without(a: Seq<char>, b: Seq<char>, c: char)
    requires
        is_without(a, c),
        is_without(b, c),
        c != ',',
    ensures
        is_without(a + seq![','] + b, c),
{
    let s = a + seq![','] + b;
    assert forall|i: int| 0 <= i < s.len() implies #[trigger] s[i] != c by {
        if i < a.len() {
            assert(s[i] == a[i]);
        } else if i > a.len() {
            assert(s[i] == b[i - a.len() - 1]);
        }
    }
}

proof fn lemma_parts_without(ts: u64, server: Seq<char>, g: Gpu)
    requires
        is_without(server, '\n'),
    ensures
        is_without(log_row(ts, server, g).drop_last(), '\n'),
{
    lemma_numeral_plain(ts as nat);
    lemma_numeral_plain(g.index as nat);
    lemma_field_chars(g.power);
    lemma_field_chars(g.power_limit);
    lemma_field_chars(g.util);
    lemma_field_chars(g.temp);
    let a = numeral(ts as nat);
    assert(is_without(a, '\n'));
    let b = a + seq![','] + server;
    lemma_join_without(a, server, '\n');
    let i = numeral(g.index as nat);
    assert(is_without(i, '\n'));
    let c = b + seq![','] + i;
    lemma_join_without(b, i, '\n');
    let d = c + seq![','] + field_text(g.power);
    lemma_join_without(c, field_text(g.power), '\n');
    let e = d + seq![','] + field_text(g.power_limit);
    lemma_join_without(d, field_text(g.power_limit), '\n');
    let f = e + seq![','] + field_text(g.util);
    lemma_join_without(e, field_text(g.util), '\n');
    lemma_join_without(f, field_text(g.temp), '\n');
    assert(log_row(ts, server, g).drop_last() =~= f + seq![','] + field_text(g.temp));
}

} // verus!
