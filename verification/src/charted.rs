//! What a reader of the statistics and of the summary finds in them.

use vstd::prelude::*;
use crate::db::{slot_row, Row};
use crate::json::{member, parsed_json, Json};
use crate::model::Server;
use crate::published::{
    about_value, column_value, columns_value, data_value, lemma_about, lemma_columns,
    lemma_plain_number, lemma_range, lemma_stats_read, lemma_summary_reads, num, range_members,
    range_value, stats_value, summary_value,
};
use crate::said::{last_value, lemma_elements_back, lemma_member_back, lemma_step, said, shown_int};
use crate::stats::{
    about, column_of, columns_text, range_text, slot_rows, slots_of, start_of, stats_text, step_of,
    Column,
};
use crate::summary::published;
use crate::written::{elements_back, is_writable, json_text, lemma_json_round_trip, read_back};

verus! {

/// What is written of a value is read as what the value reads back as.
proof fn lemma_said(t: Seq<char>, v: Json)
    requires
        json_text(v) == t,
        is_writable(v),
    ensures
        parsed_json(t) is Ok,
        said(t) == read_back(v),
{
    lemma_json_round_trip(v);
}

proof fn lemma_of_object(t: Seq<char>, m: Seq<(Seq<char>, Json)>, key: Seq<char>, v: Json)
    requires
        said(t) == read_back(Json::Obj(m)),
        last_value(m, key) == Some(v),
    ensures
        member(said(t), key) == Some(read_back(v)),
{
    lemma_member_back(m, key);
}

proof fn lemma_writable(v: Json, i: int)
    requires
        is_writable(v),
        v is Obj,
        0 <= i < v->Obj_0.len(),
    ensures
        is_writable(v->Obj_0[i].1),
{
    let m = v->Obj_0;
    assert(is_writable(m[i].1));
}

// ---------------------------------------------------------------- columns

#[verifier::rlimit(40)]
proof fn lemma_column_members(w: Json, u: Json, x: Json, t: Json, b: Json, g: Json)
    ensures
        ({
            let m = seq![
                ("w"@, w),
                ("u"@, u),
                ("x"@, x),
                ("t"@, t),
                ("b"@, b),
                ("g"@, g),
            ];
            &&& last_value(m, "w"@) == Some(w)
            &&& last_value(m, "u"@) == Some(u)
            &&& last_value(m, "x"@) == Some(x)
            &&& last_value(m, "t"@) == Some(t)
            &&& last_value(m, "b"@) == Some(b)
            &&& last_value(m, "g"@) == Some(g)
        }),
{
    reveal_strlit("w");
    reveal_strlit("u");
    reveal_strlit("x");
    reveal_strlit("t");
    reveal_strlit("b");
    reveal_strlit("g");
    assert("w"@.len() == 1);
    assert("u"@.len() == 1);
    assert("x"@.len() == 1);
    assert("t"@.len() == 1);
    assert("b"@.len() == 1);
    assert("g"@.len() == 1);
    assert("w"@[0] != "u"@[0]);
    assert("w"@[0] != "x"@[0]);
    assert("w"@[0] != "t"@[0]);
    assert("w"@[0] != "b"@[0]);
    assert("w"@[0] != "g"@[0]);
    assert("u"@[0] != "x"@[0]);
    assert("u"@[0] != "t"@[0]);
    assert("u"@[0] != "b"@[0]);
    assert("u"@[0] != "g"@[0]);
    assert("x"@[0] != "t"@[0]);
    assert("x"@[0] != "b"@[0]);
    assert("x"@[0] != "g"@[0]);
    assert("t"@[0] != "b"@[0]);
    assert("t"@[0] != "g"@[0]);
    assert("b"@[0] != "g"@[0]);
    let m = seq![
        ("w"@, w),
        ("u"@, u),
        ("x"@, x),
        ("t"@, t),
        ("b"@, b),
        ("g"@, g),
    ];
    assert(m.len() == 6);
    assert(m[0].0 == "w"@);
    assert(m[1].0 == "u"@);
    assert(m[2].0 == "x"@);
    assert(m[3].0 == "t"@);
    assert(m[4].0 == "b"@);
    assert(m[5].0 == "g"@);
    lemma_step(m, 6, "w"@);
    lemma_step(m, 5, "w"@);
    lemma_step(m, 4, "w"@);
    lemma_step(m, 3, "w"@);
    lemma_step(m, 2, "w"@);
    lemma_step(m, 1, "w"@);
    lemma_step(m, 6, "u"@);
    lemma_step(m, 5, "u"@);
    lemma_step(m, 4, "u"@);
    lemma_step(m, 3, "u"@);
    lemma_step(m, 2, "u"@);
    lemma_step(m, 6, "x"@);
    lemma_step(m, 5, "x"@);
    lemma_step(m, 4, "x"@);
    lemma_step(m, 3, "x"@);
    lemma_step(m, 6, "t"@);
    lemma_step(m, 5, "t"@);
    lemma_step(m, 4, "t"@);
    lemma_step(m, 6, "b"@);
    lemma_step(m, 5, "b"@);
    lemma_step(m, 6, "g"@);
    assert(last_value(m, "w"@) == Some(m[0].1));
    assert(last_value(m, "u"@) == Some(m[1].1));
    assert(last_value(m, "x"@) == Some(m[2].1));
    assert(last_value(m, "t"@) == Some(m[3].1));
    assert(last_value(m, "b"@) == Some(m[4].1));
    assert(last_value(m, "g"@) == Some(m[5].1));
}

proof fn lemma_column_back(rows: Seq<Row>, c: Column)
    ensures
        is_writable(column_value(rows, c)),
        read_back(column_value(rows, c)) matches Json::Arr(a) && a.len() == rows.len() && forall|
            i: int,
        |
            0 <= i < a.len() ==> #[trigger] a[i] == shown_int(column_of(rows[i], c)),
{
    let v = column_value(rows, c)->Arr_0;
    assert forall|i: int| 0 <= i < v.len() implies is_writable(#[trigger] v[i]) by {
        lemma_plain_number(column_of(rows[i], c) as nat);
    }
    lemma_elements_back(v, v.len() as int);
}

/// Whether a value is a list with a number for each row.
pub open spec fn is_list_of(j: Option<Json>, rows: Seq<Row>, q: spec_fn(Row) -> int) -> bool {
    j matches Some(Json::Arr(a)) && a.len() == rows.len() && forall|i: int|
        0 <= i < a.len() ==> #[trigger] a[i] == shown_int(q(rows[i]))
}

proof fn lemma_column_writable(rows: Seq<Row>, c: Column)
    ensures
        is_writable(column_value(rows, c)),
{
    lemma_column_back(rows, c);
}

proof fn lemma_six_writable(m: Seq<(Seq<char>, Json)>)
    requires
        m.len() == 6,
        is_writable(m[0].1),
        is_writable(m[1].1),
        is_writable(m[2].1),
        is_writable(m[3].1),
        is_writable(m[4].1),
        is_writable(m[5].1),
    ensures
        is_writable(Json::Obj(m)),
{
    assert forall|i: int| 0 <= i < m.len() implies is_writable((#[trigger] m[i]).1) by {
        assert(i == 0 || i == 1 || i == 2 || i == 3 || i == 4 || i == 5);
    }
}

proof fn lemma_columns_said(rows: Seq<Row>)
    ensures
        parsed_json(columns_text(rows)) is Ok,
        said(columns_text(rows)) == read_back(columns_value(rows)),
{
    lemma_columns(rows);
    lemma_column_writable(rows, Column::Watts);
    lemma_column_writable(rows, Column::UtilAvg);
    lemma_column_writable(rows, Column::UtilMax);
    lemma_column_writable(rows, Column::TempMax);
    lemma_column_writable(rows, Column::Busy);
    lemma_column_writable(rows, Column::Gpus);
    lemma_six_writable(columns_value(rows)->Obj_0);
    lemma_said(columns_text(rows), columns_value(rows));
}

proof fn lemma_columns_keys(rows: Seq<Row>)
    ensures
        ({
            let m = columns_value(rows)->Obj_0;
            &&& last_value(m, "w"@) == Some(column_value(rows, Column::Watts))
            &&& last_value(m, "u"@) == Some(column_value(rows, Column::UtilAvg))
            &&& last_value(m, "x"@) == Some(column_value(rows, Column::UtilMax))
            &&& last_value(m, "t"@) == Some(column_value(rows, Column::TempMax))
            &&& last_value(m, "b"@) == Some(column_value(rows, Column::Busy))
            &&& last_value(m, "g"@) == Some(column_value(rows, Column::Gpus))
        }),
{
    lemma_column_members(
        column_value(rows, Column::Watts),
        column_value(rows, Column::UtilAvg),
        column_value(rows, Column::UtilMax),
        column_value(rows, Column::TempMax),
        column_value(rows, Column::Busy),
        column_value(rows, Column::Gpus),
    );
}

/// The law of the columns: `w` is the power, `u` the mean use, `x` its peak, `t` the highest
/// temperature, `b` the busy cards and `g` all cards, each with a number for each slot.
#[verifier::rlimit(60)]
pub proof fn lemma_columns_say(rows: Seq<Row>)
    ensures
        parsed_json(columns_text(rows)) is Ok,
        is_list_of(member(said(columns_text(rows)), "w"@), rows, |r: Row| r.watts as int),
        is_list_of(member(said(columns_text(rows)), "u"@), rows, |r: Row| r.util_avg as int),
        is_list_of(member(said(columns_text(rows)), "x"@), rows, |r: Row| r.util_max as int),
        is_list_of(member(said(columns_text(rows)), "t"@), rows, |r: Row| r.temp_max as int),
        is_list_of(member(said(columns_text(rows)), "b"@), rows, |r: Row| r.busy as int),
        is_list_of(member(said(columns_text(rows)), "g"@), rows, |r: Row| r.gpus as int),
{
    let t = columns_text(rows);
    let m = columns_value(rows)->Obj_0;
    lemma_columns_said(rows);
    lemma_columns_keys(rows);
    assert(is_list_of(member(said(t), "w"@), rows, |r: Row| r.watts as int)) by {
        lemma_of_object(t, m, "w"@, column_value(rows, Column::Watts));
        lemma_column_back(rows, Column::Watts);
    }
    assert(is_list_of(member(said(t), "u"@), rows, |r: Row| r.util_avg as int)) by {
        lemma_of_object(t, m, "u"@, column_value(rows, Column::UtilAvg));
        lemma_column_back(rows, Column::UtilAvg);
    }
    assert(is_list_of(member(said(t), "x"@), rows, |r: Row| r.util_max as int)) by {
        lemma_of_object(t, m, "x"@, column_value(rows, Column::UtilMax));
        lemma_column_back(rows, Column::UtilMax);
    }
    assert(is_list_of(member(said(t), "t"@), rows, |r: Row| r.temp_max as int)) by {
        lemma_of_object(t, m, "t"@, column_value(rows, Column::TempMax));
        lemma_column_back(rows, Column::TempMax);
    }
    assert(is_list_of(member(said(t), "b"@), rows, |r: Row| r.busy as int)) by {
        lemma_of_object(t, m, "b"@, column_value(rows, Column::Busy));
        lemma_column_back(rows, Column::Busy);
    }
    assert(is_list_of(member(said(t), "g"@), rows, |r: Row| r.gpus as int)) by {
        lemma_of_object(t, m, "g"@, column_value(rows, Column::Gpus));
        lemma_column_back(rows, Column::Gpus);
    }
}

// ---------------------------------------------------------------- servers

#[verifier::rlimit(40)]
proof fn lemma_about_members(n: Json, g: Json, c: Json, l: Json)
    ensures
        ({
            let m = seq![
                ("name"@, n),
                ("gpu"@, g),
                ("n_gpu"@, c),
                ("loc"@, l),
            ];
            &&& last_value(m, "name"@) == Some(n)
            &&& last_value(m, "gpu"@) == Some(g)
            &&& last_value(m, "n_gpu"@) == Some(c)
            &&& last_value(m, "loc"@) == Some(l)
        }),
{
    reveal_strlit("name");
    reveal_strlit("gpu");
    reveal_strlit("n_gpu");
    reveal_strlit("loc");
    assert("name"@.len() == 4);
    assert("gpu"@.len() == 3);
    assert("n_gpu"@.len() == 5);
    assert("loc"@.len() == 3);
    assert("gpu"@[0] != "loc"@[0]);
    let m = seq![
        ("name"@, n),
        ("gpu"@, g),
        ("n_gpu"@, c),
        ("loc"@, l),
    ];
    assert(m.len() == 4);
    assert(m[0].0 == "name"@);
    assert(m[1].0 == "gpu"@);
    assert(m[2].0 == "n_gpu"@);
    assert(m[3].0 == "loc"@);
    lemma_step(m, 4, "name"@);
    lemma_step(m, 3, "name"@);
    lemma_step(m, 2, "name"@);
    lemma_step(m, 1, "name"@);
    lemma_step(m, 4, "gpu"@);
    lemma_step(m, 3, "gpu"@);
    lemma_step(m, 2, "gpu"@);
    lemma_step(m, 4, "n_gpu"@);
    lemma_step(m, 3, "n_gpu"@);
    lemma_step(m, 4, "loc"@);
    assert(last_value(m, "name"@) == Some(m[0].1));
    assert(last_value(m, "gpu"@) == Some(m[1].1));
    assert(last_value(m, "n_gpu"@) == Some(m[2].1));
    assert(last_value(m, "loc"@) == Some(m[3].1));
}

proof fn lemma_about_said(s: Server)
    requires
        is_writable(about_value(s)),
    ensures
        parsed_json(about(s)) is Ok,
        said(about(s)) == read_back(about_value(s)),
{
    lemma_about(s);
    lemma_said(about(s), about_value(s));
}

/// A server in the statistics says its name, its model, the number of its cards and where it
/// stands.
#[verifier::rlimit(60)]
pub proof fn lemma_about_says(s: Server)
    requires
        is_writable(about_value(s)),
    ensures
        parsed_json(about(s)) is Ok,
        member(said(about(s)), "name"@) == Some(Json::Str(s.name@)),
        member(said(about(s)), "gpu"@) == Some(Json::Str(s.gpu_model@)),
        member(said(about(s)), "n_gpu"@) == Some(shown_int(s.n_gpu as int)),
        member(said(about(s)), "loc"@) == Some(Json::Str(s.loc@)),
{
    let m = about_value(s)->Obj_0;
    let t = about(s);
    lemma_about_said(s);
    lemma_about_members(
        Json::Str(s.name@),
        Json::Str(s.gpu_model@),
        num(s.n_gpu as int),
        Json::Str(s.loc@),
    );
    lemma_of_object(t, m, "name"@, Json::Str(s.name@));
    lemma_of_object(t, m, "gpu"@, Json::Str(s.gpu_model@));
    lemma_of_object(t, m, "n_gpu"@, num(s.n_gpu as int));
    lemma_of_object(t, m, "loc"@, Json::Str(s.loc@));
}

// ---------------------------------------------------------------- ranges

#[verifier::rlimit(40)]
proof fn lemma_range_members(f: Json, s: Json, n: Json, d: Json)
    ensures
        ({
            let m = seq![
                ("from"@, f),
                ("step"@, s),
                ("n"@, n),
                ("data"@, d),
            ];
            &&& last_value(m, "from"@) == Some(f)
            &&& last_value(m, "step"@) == Some(s)
            &&& last_value(m, "n"@) == Some(n)
            &&& last_value(m, "data"@) == Some(d)
        }),
{
    reveal_strlit("from");
    reveal_strlit("step");
    reveal_strlit("n");
    reveal_strlit("data");
    assert("from"@.len() == 4);
    assert("step"@.len() == 4);
    assert("n"@.len() == 1);
    assert("data"@.len() == 4);
    assert("from"@[0] != "step"@[0]);
    assert("from"@[0] != "data"@[0]);
    assert("step"@[0] != "data"@[0]);
    let m = seq![
        ("from"@, f),
        ("step"@, s),
        ("n"@, n),
        ("data"@, d),
    ];
    assert(m.len() == 4);
    assert(m[0].0 == "from"@);
    assert(m[1].0 == "step"@);
    assert(m[2].0 == "n"@);
    assert(m[3].0 == "data"@);
    lemma_step(m, 4, "from"@);
    lemma_step(m, 3, "from"@);
    lemma_step(m, 2, "from"@);
    lemma_step(m, 1, "from"@);
    lemma_step(m, 4, "step"@);
    lemma_step(m, 3, "step"@);
    lemma_step(m, 2, "step"@);
    lemma_step(m, 4, "n"@);
    lemma_step(m, 3, "n"@);
    lemma_step(m, 4, "data"@);
    assert(last_value(m, "from"@) == Some(m[0].1));
    assert(last_value(m, "step"@) == Some(m[1].1));
    assert(last_value(m, "n"@) == Some(m[2].1));
    assert(last_value(m, "data"@) == Some(m[3].1));
}

proof fn lemma_last_at(m: Seq<(Seq<char>, Json)>, i: int, k: int)
    requires
        0 <= i < k <= m.len(),
        forall|a: int, b: int|
            0 <= a < b < m.len() ==> (#[trigger] m[a]).0 != (#[trigger] m[b]).0,
    ensures
        last_value(m.take(k), m[i].0) == Some(m[i].1),
    decreases k,
{
    lemma_step(m, k, m[i].0);
    if i < k - 1 {
        assert(m[i].0 != m[k - 1].0);
        lemma_last_at(m, i, k - 1);
    }
}

/// Whether no two servers have one name.
pub open spec fn are_apart(active: Seq<&Server>) -> bool {
    forall|a: int, b: int|
        0 <= a < b < active.len() ==> (#[trigger] active[a]).name@ != (#[trigger] active[b]).name@
}

proof fn lemma_range_read(t: Seq<char>, f: Json, s: Json, n: Json, d: Json)
    requires
        said(t) == read_back(
            Json::Obj(seq![("from"@, f), ("step"@, s), ("n"@, n), ("data"@, d)]),
        ),
        is_writable(Json::Obj(seq![("from"@, f), ("step"@, s), ("n"@, n), ("data"@, d)])),
    ensures
        member(said(t), "from"@) == Some(read_back(f)),
        member(said(t), "step"@) == Some(read_back(s)),
        member(said(t), "n"@) == Some(read_back(n)),
        member(said(t), "data"@) == Some(read_back(d)),
        is_writable(d),
{
    let m = seq![("from"@, f), ("step"@, s), ("n"@, n), ("data"@, d)];
    lemma_range_members(f, s, n, d);
    lemma_of_object(t, m, "from"@, f);
    lemma_of_object(t, m, "step"@, s);
    lemma_of_object(t, m, "n"@, n);
    lemma_of_object(t, m, "data"@, d);
    lemma_writable(Json::Obj(m), 3);
}

proof fn lemma_stats_found(t: Seq<char>, n: Json, s: Json, r: Json)
    requires
        said(t) == read_back(Json::Obj(seq![("now"@, n), ("servers"@, s), ("ranges"@, r)])),
        is_writable(Json::Obj(seq![("now"@, n), ("servers"@, s), ("ranges"@, r)])),
    ensures
        member(said(t), "now"@) == Some(read_back(n)),
        member(said(t), "servers"@) == Some(read_back(s)),
        member(said(t), "ranges"@) == Some(read_back(r)),
        is_writable(s),
        is_writable(r),
{
    let m = seq![("now"@, n), ("servers"@, s), ("ranges"@, r)];
    lemma_stats_keys(n, s, r);
    lemma_of_object(t, m, "now"@, n);
    lemma_of_object(t, m, "servers"@, s);
    lemma_of_object(t, m, "ranges"@, r);
    lemma_writable(Json::Obj(m), 1);
    lemma_writable(Json::Obj(m), 2);
}

proof fn lemma_range_parts(
    active: Seq<&Server>,
    data: Seq<Vec<Row>>,
    span: u32,
    slots: usize,
    now: u32,
)
    requires
        is_writable(range_value(active, data, span, slots, now)),
    ensures
        parsed_json(range_text(active, data, span, slots, now)) is Ok,
        ({
            let o = said(range_text(active, data, span, slots, now));
            let from = start_of(span, slots, now);
            let step = step_of(span, slots);
            let n = slots_of(slots);
            let dv = data_value(active, data, from, step, n as nat);
            &&& member(o, "from"@) == Some(shown_int(from as int))
            &&& member(o, "step"@) == Some(shown_int(step as int))
            &&& member(o, "n"@) == Some(shown_int(n as int))
            &&& member(o, "data"@) == Some(read_back(dv))
            &&& is_writable(dv)
        }),
{
    let from = start_of(span, slots, now);
    let step = step_of(span, slots);
    let n = slots_of(slots);
    let v = range_value(active, data, span, slots, now);
    let t = range_text(active, data, span, slots, now);
    let dv = data_value(active, data, from, step, n as nat);
    lemma_range(active, data, span, slots, now);
    lemma_said(t, v);
    lemma_range_read(t, num(from as int), num(step as int), num(n as int), dv);
}

proof fn lemma_data_member(
    active: Seq<&Server>,
    data: Seq<Vec<Row>>,
    from: u32,
    step: u32,
    n: nat,
    i: int,
)
    requires
        is_writable(data_value(active, data, from, step, n)),
        are_apart(active),
        0 <= i < active.len(),
    ensures
        member(read_back(data_value(active, data, from, step, n)), active[i].name@) == Some(
            said(columns_text(Seq::new(n, |k: int| slot_row(data[i]@, from, step, k)))),
        ),
{
    let dm = data_value(active, data, from, step, n)->Obj_0;
    assert forall|a: int, b: int| 0 <= a < b < dm.len() implies (#[trigger] dm[a]).0 != (
    #[trigger] dm[b]).0 by {
        assert(active[a].name@ != active[b].name@);
    }
    lemma_last_at(dm, i, dm.len() as int);
    assert(dm.take(dm.len() as int) =~= dm);
    lemma_member_back(dm, active[i].name@);
    let rows = slot_rows(data[i]@, from, step, n);
    assert(rows =~= Seq::new(n, |k: int| slot_row(data[i]@, from, step, k)));
    lemma_columns_said(rows);
    assert(dm[i].1 == columns_value(rows));
}

/// The law of a range: it says where it starts, how long a slot is and how many there are, and
/// under the name of each server what the slots of that server are.
#[verifier::rlimit(60)]
pub proof fn lemma_range_says(
    active: Seq<&Server>,
    data: Seq<Vec<Row>>,
    span: u32,
    slots: usize,
    now: u32,
    i: int,
)
    requires
        is_writable(range_value(active, data, span, slots, now)),
        are_apart(active),
        0 <= i < active.len(),
    ensures
        parsed_json(range_text(active, data, span, slots, now)) is Ok,
        ({
            let o = said(range_text(active, data, span, slots, now));
            let from = start_of(span, slots, now);
            let step = step_of(span, slots);
            &&& member(o, "from"@) == Some(shown_int(from as int))
            &&& member(o, "step"@) == Some(shown_int(step as int))
            &&& member(o, "n"@) == Some(shown_int(slots_of(slots) as int))
            &&& member(o, "data"@) matches Some(d) && member(d, active[i].name@) == Some(
                said(
                    columns_text(
                        Seq::new(
                            slots_of(slots) as nat,
                            |k: int| slot_row(data[i]@, from, step, k),
                        ),
                    ),
                ),
            )
        }),
{
    lemma_range_parts(active, data, span, slots, now);
    lemma_data_member(
        active,
        data,
        start_of(span, slots, now),
        step_of(span, slots),
        slots_of(slots) as nat,
        i,
    );
}

proof fn lemma_stats_keys(n: Json, s: Json, r: Json)
    ensures
        ({
            let m = seq![
                ("now"@, n),
                ("servers"@, s),
                ("ranges"@, r),
            ];
            &&& last_value(m, "now"@) == Some(n)
            &&& last_value(m, "servers"@) == Some(s)
            &&& last_value(m, "ranges"@) == Some(r)
        }),
{
    reveal_strlit("now");
    reveal_strlit("servers");
    reveal_strlit("ranges");
    assert("now"@.len() == 3);
    assert("servers"@.len() == 7);
    assert("ranges"@.len() == 6);
    let m = seq![
        ("now"@, n),
        ("servers"@, s),
        ("ranges"@, r),
    ];
    assert(m.len() == 3);
    assert(m[0].0 == "now"@);
    assert(m[1].0 == "servers"@);
    assert(m[2].0 == "ranges"@);
    lemma_step(m, 3, "now"@);
    lemma_step(m, 2, "now"@);
    lemma_step(m, 1, "now"@);
    lemma_step(m, 3, "servers"@);
    lemma_step(m, 2, "servers"@);
    lemma_step(m, 3, "ranges"@);
    assert(last_value(m, "now"@) == Some(m[0].1));
    assert(last_value(m, "servers"@) == Some(m[1].1));
    assert(last_value(m, "ranges"@) == Some(m[2].1));
}

proof fn lemma_stats_parts(
    active: Seq<&Server>,
    ranges: Seq<(&str, u32, usize)>,
    data: Seq<Vec<Vec<Row>>>,
    now: u32,
)
    requires
        is_writable(stats_value(active, ranges, data, now)),
    ensures
        parsed_json(stats_text(active, ranges, data, now)) is Ok,
        ({
            let o = said(stats_text(active, ranges, data, now));
            let sv = Json::Arr(active.map_values(|s: &Server| about_value(*s)));
            let rv = Json::Obj(range_members(active, ranges, data, now));
            &&& member(o, "now"@) == Some(shown_int(now as int))
            &&& member(o, "servers"@) == Some(read_back(sv))
            &&& member(o, "ranges"@) == Some(read_back(rv))
            &&& is_writable(rv)
            &&& is_writable(sv)
        }),
{
    let t = stats_text(active, ranges, data, now);
    let sv = Json::Arr(active.map_values(|s: &Server| about_value(*s)));
    let rv = Json::Obj(range_members(active, ranges, data, now));
    lemma_stats_read(active, ranges, data, now);
    lemma_stats_found(t, num(now as int), sv, rv);
}

proof fn lemma_range_member(
    active: Seq<&Server>,
    ranges: Seq<(&str, u32, usize)>,
    data: Seq<Vec<Vec<Row>>>,
    now: u32,
    i: int,
)
    requires
        is_writable(Json::Obj(range_members(active, ranges, data, now))),
        forall|a: int, b: int|
            0 <= a < b < ranges.len() ==> (#[trigger] ranges[a]).0@ != (#[trigger] ranges[b]).0@,
        0 <= i < ranges.len(),
    ensures
        member(
            read_back(Json::Obj(range_members(active, ranges, data, now))),
            ranges[i].0@,
        ) == Some(said(range_text(active, data[i]@, ranges[i].1, ranges[i].2, now))),
        is_writable(range_value(active, data[i]@, ranges[i].1, ranges[i].2, now)),
{
    let rm = range_members(active, ranges, data, now);
    lemma_writable(Json::Obj(rm), i);
    assert forall|a: int, b: int| 0 <= a < b < rm.len() implies (#[trigger] rm[a]).0 != (
    #[trigger] rm[b]).0 by {
        assert(ranges[a].0@ != ranges[b].0@);
    }
    lemma_last_at(rm, i, rm.len() as int);
    assert(rm.take(rm.len() as int) =~= rm);
    lemma_member_back(rm, ranges[i].0@);
    let v = range_value(active, data[i]@, ranges[i].1, ranges[i].2, now);
    lemma_range(active, data[i]@, ranges[i].1, ranges[i].2, now);
    lemma_said(range_text(active, data[i]@, ranges[i].1, ranges[i].2, now), v);
}

/// The law of the statistics: the time, every server in its order as its own text says, and
/// under the name of each range what that range is.
#[verifier::rlimit(60)]
pub proof fn lemma_stats_say(
    active: Seq<&Server>,
    ranges: Seq<(&str, u32, usize)>,
    data: Seq<Vec<Vec<Row>>>,
    now: u32,
    i: int,
)
    requires
        is_writable(stats_value(active, ranges, data, now)),
        forall|a: int, b: int|
            0 <= a < b < ranges.len() ==> (#[trigger] ranges[a]).0@ != (#[trigger] ranges[b]).0@,
        0 <= i < ranges.len(),
    ensures
        parsed_json(stats_text(active, ranges, data, now)) is Ok,
        ({
            let o = said(stats_text(active, ranges, data, now));
            &&& member(o, "now"@) == Some(shown_int(now as int))
            &&& member(o, "servers"@) matches Some(Json::Arr(a)) && a.len() == active.len()
                && forall|k: int| 0 <= k < a.len() ==> #[trigger] a[k] == said(about(*active[k]))
            &&& member(o, "ranges"@) matches Some(r) && member(r, ranges[i].0@) == Some(
                said(range_text(active, data[i]@, ranges[i].1, ranges[i].2, now)),
            )
        }),
        is_writable(range_value(active, data[i]@, ranges[i].1, ranges[i].2, now)),
{
    lemma_stats_parts(active, ranges, data, now);
    let sv = active.map_values(|s: &Server| about_value(*s));
    let rm = range_members(active, ranges, data, now);
    lemma_elements_back(sv, sv.len() as int);
    assert forall|k: int| 0 <= k < sv.len() implies (#[trigger] elements_back(
        sv,
        sv.len() as int,
    )[k]) == said(about(*active[k])) by {
        assert(is_writable(sv[k]));
        lemma_about_said(*active[k]);
    }
    lemma_range_member(active, ranges, data, now, i);
}

// ---------------------------------------------------------------- the summary

proof fn lemma_summary_members(t: Json, c: Json, x: Json)
    ensures
        ({
            let m = seq![
                ("ts"@, t),
                ("model"@, c),
                ("text"@, x),
            ];
            &&& last_value(m, "ts"@) == Some(t)
            &&& last_value(m, "model"@) == Some(c)
            &&& last_value(m, "text"@) == Some(x)
        }),
{
    reveal_strlit("ts");
    reveal_strlit("model");
    reveal_strlit("text");
    assert("ts"@.len() == 2);
    assert("model"@.len() == 5);
    assert("text"@.len() == 4);
    let m = seq![
        ("ts"@, t),
        ("model"@, c),
        ("text"@, x),
    ];
    assert(m.len() == 3);
    assert(m[0].0 == "ts"@);
    assert(m[1].0 == "model"@);
    assert(m[2].0 == "text"@);
    lemma_step(m, 3, "ts"@);
    lemma_step(m, 2, "ts"@);
    lemma_step(m, 1, "ts"@);
    lemma_step(m, 3, "model"@);
    lemma_step(m, 2, "model"@);
    lemma_step(m, 3, "text"@);
    assert(last_value(m, "ts"@) == Some(m[0].1));
    assert(last_value(m, "model"@) == Some(m[1].1));
    assert(last_value(m, "text"@) == Some(m[2].1));
}

/// The law of the published summary: it says when it was written, by which model, and its text.
#[verifier::rlimit(60)]
pub proof fn lemma_summary_says(text: Seq<char>, ts: u32, model: Seq<char>)
    ensures
        parsed_json(published(text, ts, model)) is Ok,
        member(said(published(text, ts, model)), "ts"@) == Some(shown_int(ts as int)),
        member(said(published(text, ts, model)), "model"@) == Some(Json::Str(model)),
        member(said(published(text, ts, model)), "text"@) == Some(Json::Str(text)),
{
    let m = summary_value(text, ts, model)->Obj_0;
    lemma_summary_reads(text, ts, model);
    lemma_summary_members(num(ts as int), Json::Str(model), Json::Str(text));
    lemma_member_back(m, "ts"@);
    lemma_member_back(m, "model"@);
    lemma_member_back(m, "text"@);
}

} // verus!
