//! What is published is JSON, and reads as what was published.

use vstd::prelude::*;
use crate::db::Row;
use crate::double::{lemma_order, lemma_whole_exact, nearest, whole, with_sign, Double};
use crate::json::{
    array_text, entry, num_text, object_text, opt_num_text, parsed_json, plain_integer, quoted,
    Json,
};
use crate::model::{
    address_entries, error_entries, gpu_busy_count, gpu_count, gpu_entries, gpu_text, host_entries,
    listed_server, oldest_ts, opt_entries, pending_text, power_entries, proc_text, public_error,
    rack_text, sample_of, server_text, snapshot, status_name, summary_text, up_count, Gpu, Host,
    Rack, Sample, Server, Status,
};
use crate::stats::{
    about, column_of, column_texts, columns_text, data_entries, range_entries, range_text,
    slot_rows, slots_of, start_of, stats_text, step_of, Column,
};
use crate::summary::published;
use crate::written::{
    is_writable, json_text, lemma_array_text, lemma_json_round_trip, lemma_object_text, read_back,
};

verus! {

/// An integer.
pub open spec fn num(i: int) -> Json {
    Json::Num(whole(i))
}

/// A reading, or nothing.
pub open spec fn reading(n: Option<Double>) -> Json {
    match n {
        Some(n) => Json::Num(n),
        None => Json::Null,
    }
}

/// The texts of members.
pub open spec fn texts_of(m: Seq<(Seq<char>, Json)>) -> Seq<Seq<char>> {
    Seq::new(m.len(), |i: int| entry(m[i].0, json_text(m[i].1)))
}

proof fn lemma_object(m: Seq<(Seq<char>, Json)>)
    ensures
        json_text(Json::Obj(m)) == object_text(texts_of(m)),
{
    lemma_object_text(m, texts_of(m));
}

proof fn lemma_both(a: Seq<(Seq<char>, Json)>, b: Seq<(Seq<char>, Json)>)
    ensures
        texts_of(a + b) == texts_of(a) + texts_of(b),
{
    assert(texts_of(a + b) =~= texts_of(a) + texts_of(b));
}

// ---------------------------------------------------------------- the snapshot

/// A process, as it is published.
pub open spec fn proc_value(m: Double) -> Json {
    Json::Obj(seq![("mem"@, Json::Num(m))])
}

/// A card, as it is published.
pub open spec fn gpu_value(g: Gpu) -> Json {
    Json::Obj(
        seq![
            ("index"@, num(g.index as int)),
            ("name"@, Json::Str(g.name@)),
            ("util"@, reading(g.util)),
            ("mem_used"@, reading(g.mem_used)),
            ("mem_total"@, reading(g.mem_total)),
            ("power"@, reading(g.power)),
            ("power_limit"@, reading(g.power_limit)),
            ("temp"@, reading(g.temp)),
            ("fan"@, reading(g.fan)),
            ("procs"@, Json::Arr(g.procs@.map_values(|m: Double| proc_value(m)))),
        ],
    )
}

proof fn lemma_proc(m: Double)
    ensures
        json_text(proc_value(m)) == proc_text(m),
{
    lemma_object_text(seq![("mem"@, Json::Num(m))], seq![entry("mem"@, num_text(m))]);
}

proof fn lemma_reading(n: Option<Double>)
    ensures
        json_text(reading(n)) == opt_num_text(n),
{
}

pub(crate) proof fn lemma_gpu(g: Gpu)
    ensures
        json_text(gpu_value(g)) == gpu_text(g),
{
    let vs = g.procs@.map_values(|m: Double| proc_value(m));
    let ts = g.procs@.map_values(|m: Double| proc_text(m));
    assert forall|i: int| 0 <= i < vs.len() implies #[trigger] ts[i] == json_text(vs[i]) by {
        lemma_proc(g.procs@[i]);
    }
    lemma_array_text(vs, ts);
    lemma_reading(g.util);
    lemma_reading(g.mem_used);
    lemma_reading(g.mem_total);
    lemma_reading(g.power);
    lemma_reading(g.power_limit);
    lemma_reading(g.temp);
    lemma_reading(g.fan);
    let m = gpu_value(g)->Obj_0;
    let es = seq![
        entry("index"@, num_text(whole(g.index as int))),
        entry("name"@, quoted(g.name@)),
        entry("util"@, opt_num_text(g.util)),
        entry("mem_used"@, opt_num_text(g.mem_used)),
        entry("mem_total"@, opt_num_text(g.mem_total)),
        entry("power"@, opt_num_text(g.power)),
        entry("power_limit"@, opt_num_text(g.power_limit)),
        entry("temp"@, opt_num_text(g.temp)),
        entry("fan"@, opt_num_text(g.fan)),
        entry("procs"@, array_text(ts)),
    ];
    assert forall|i: int| 0 <= i < m.len() implies #[trigger] es[i] == entry(
        m[i].0,
        json_text(m[i].1),
    ) by {}
    lemma_object_text(m, es);
}

/// The member `k`, where there is a reading for it.
pub open spec fn opt_members(k: Seq<char>, n: Option<Double>) -> Seq<(Seq<char>, Json)> {
    match n {
        Some(n) => seq![(k, Json::Num(n))],
        None => seq![],
    }
}

proof fn lemma_opt(k: Seq<char>, n: Option<Double>)
    ensures
        texts_of(opt_members(k, n)) == opt_entries(k, n),
{
    assert(texts_of(opt_members(k, n)) =~= opt_entries(k, n));
}

/// The address of a server, which only the internal snapshot has.
pub open spec fn address_members(s: Server, public: bool) -> Seq<(Seq<char>, Json)> {
    if public {
        seq![]
    } else {
        seq![("host"@, Json::Str(s.host@)), ("port"@, num(s.port as int))] + if s.note@.len() == 0 {
            seq![]
        } else {
            seq![("note"@, Json::Str(s.note@))]
        }
    }
}

proof fn lemma_address(s: Server, public: bool)
    ensures
        texts_of(address_members(s, public)) == address_entries(s, public),
{
    assert(texts_of(address_members(s, public)) =~= address_entries(s, public));
}

/// What is published of an error.
pub open spec fn error_members(d: Sample, public: bool) -> Seq<(Seq<char>, Json)> {
    if d.status == Status::Up {
        seq![]
    } else {
        seq![
            (
                "error"@,
                Json::Str(
                    if public {
                        public_error(d.status)
                    } else {
                        d.error@
                    },
                ),
            ),
        ]
    }
}

proof fn lemma_error(d: Sample, public: bool)
    ensures
        texts_of(error_members(d, public)) == error_entries(d, public),
{
    assert(texts_of(error_members(d, public)) =~= error_entries(d, public));
}

/// What is published of the host.
pub open spec fn host_members(h: Host) -> Seq<(Seq<char>, Json)> {
    opt_members("load1"@, h.load1) + (if h.nproc > 0 {
        seq![("nproc"@, num(h.nproc as int))]
    } else {
        seq![]
    }) + opt_members("ram_total_mb"@, h.ram_total_mb) + opt_members("ram_used_mb"@, h.ram_used_mb)
        + opt_members("disk_total_kb"@, h.disk_total_kb) + opt_members(
        "disk_used_kb"@,
        h.disk_used_kb,
    ) + opt_members("uptime_sec"@, h.uptime_sec)
}

proof fn lemma_host(h: Host)
    ensures
        texts_of(host_members(h)) == host_entries(h),
{
    let n: Seq<(Seq<char>, Json)> = if h.nproc > 0 {
        seq![("nproc"@, num(h.nproc as int))]
    } else {
        seq![]
    };
    let nt: Seq<Seq<char>> = if h.nproc > 0 {
        seq![entry("nproc"@, num_text(whole(h.nproc as int)))]
    } else {
        seq![]
    };
    assert(texts_of(n) =~= nt);
    let a = opt_members("load1"@, h.load1);
    let b = opt_members("ram_total_mb"@, h.ram_total_mb);
    let c = opt_members("ram_used_mb"@, h.ram_used_mb);
    let d = opt_members("disk_total_kb"@, h.disk_total_kb);
    let e = opt_members("disk_used_kb"@, h.disk_used_kb);
    let f = opt_members("uptime_sec"@, h.uptime_sec);
    lemma_opt("load1"@, h.load1);
    lemma_opt("ram_total_mb"@, h.ram_total_mb);
    lemma_opt("ram_used_mb"@, h.ram_used_mb);
    lemma_opt("disk_total_kb"@, h.disk_total_kb);
    lemma_opt("disk_used_kb"@, h.disk_used_kb);
    lemma_opt("uptime_sec"@, h.uptime_sec);
    lemma_both(a, n);
    lemma_both(a + n, b);
    lemma_both(a + n + b, c);
    lemma_both(a + n + b + c, d);
    lemma_both(a + n + b + c + d, e);
    lemma_both(a + n + b + c + d + e, f);
}

/// What is published of the power drawn.
pub open spec fn power_members(d: Sample) -> Seq<(Seq<char>, Json)> {
    opt_members("watts"@, d.watts) + if d.watt_history@.len() == 0 {
        seq![]
    } else {
        seq![
            (
                "watt_history"@,
                Json::Arr(d.watt_history@.map_values(|v: Double| Json::Num(nearest(v)))),
            ),
        ]
    }
}

proof fn lemma_power(d: Sample)
    ensures
        texts_of(power_members(d)) == power_entries(d),
{
    let vs = d.watt_history@.map_values(|v: Double| Json::Num(nearest(v)));
    let ts = d.watt_history@.map_values(|v: Double| num_text(nearest(v)));
    assert forall|i: int| 0 <= i < vs.len() implies #[trigger] ts[i] == json_text(vs[i]) by {}
    lemma_array_text(vs, ts);
    lemma_opt("watts"@, d.watts);
    assert(texts_of(power_members(d)) =~= power_entries(d));
}

/// What is published of the cards.
pub open spec fn gpu_members(d: Sample) -> Seq<(Seq<char>, Json)> {
    if d.gpus@.len() == 0 {
        seq![]
    } else {
        seq![("gpus"@, Json::Arr(d.gpus@.map_values(|g: Gpu| gpu_value(g))))]
    }
}

proof fn lemma_gpus(d: Sample)
    ensures
        texts_of(gpu_members(d)) == gpu_entries(d),
{
    let vs = d.gpus@.map_values(|g: Gpu| gpu_value(g));
    let ts = d.gpus@.map_values(|g: Gpu| gpu_text(g));
    assert forall|i: int| 0 <= i < vs.len() implies #[trigger] ts[i] == json_text(vs[i]) by {
        lemma_gpu(d.gpus@[i]);
    }
    lemma_array_text(vs, ts);
    assert(texts_of(gpu_members(d)) =~= gpu_entries(d));
}

/// What is published of every server.
pub open spec fn name_members(s: Server, ts: int, status: Status) -> Seq<(Seq<char>, Json)> {
    seq![
        ("name"@, Json::Str(s.name@)),
        ("gpu_model"@, Json::Str(s.gpu_model@)),
        ("n_gpu_expected"@, num(s.n_gpu as int)),
        ("loc"@, Json::Str(s.loc@)),
        ("ts"@, num(ts)),
        ("status"@, Json::Str(status_name(status))),
    ]
}

/// The texts of what is published of every server.
spec fn name_entries(s: Server, ts: int, status: Status) -> Seq<Seq<char>> {
    seq![
        entry("name"@, quoted(s.name@)),
        entry("gpu_model"@, quoted(s.gpu_model@)),
        entry("n_gpu_expected"@, num_text(whole(s.n_gpu as int))),
        entry("loc"@, quoted(s.loc@)),
        entry("ts"@, num_text(whole(ts))),
        entry("status"@, quoted(status_name(status))),
    ]
}

proof fn lemma_name(s: Server, ts: int, status: Status)
    ensures
        texts_of(name_members(s, ts, status)) == name_entries(s, ts, status),
{
    assert(texts_of(name_members(s, ts, status)) =~= name_entries(s, ts, status));
}

/// A server, as it is published.
pub open spec fn server_value(s: Server, d: Sample, public: bool) -> Json {
    Json::Obj(
        name_members(s, d.ts as int, d.status) + address_members(s, public) + error_members(
            d,
            public,
        ) + host_members(d.host) + power_members(d) + gpu_members(d),
    )
}

pub(crate) proof fn lemma_server(s: Server, d: Sample, public: bool)
    ensures
        json_text(server_value(s, d, public)) == server_text(s, d, public),
{
    let n = name_members(s, d.ts as int, d.status);
    let a = address_members(s, public);
    let e = error_members(d, public);
    let h = host_members(d.host);
    let p = power_members(d);
    let g = gpu_members(d);
    lemma_name(s, d.ts as int, d.status);
    lemma_address(s, public);
    lemma_error(d, public);
    lemma_host(d.host);
    lemma_power(d);
    lemma_gpus(d);
    lemma_both(n, a);
    lemma_both(n + a, e);
    lemma_both(n + a + e, h);
    lemma_both(n + a + e + h, p);
    lemma_both(n + a + e + h + p, g);
    lemma_object(n + a + e + h + p + g);
}

/// A server that has reported nothing, as it is published.
pub open spec fn pending_value(s: Server, public: bool) -> Json {
    Json::Obj(
        name_members(s, 0, Status::Pending) + address_members(s, public) + seq![
            ("error"@, Json::Str("연결 중"@)),
        ],
    )
}

pub(crate) proof fn lemma_pending(s: Server, public: bool)
    ensures
        json_text(pending_value(s, public)) == pending_text(s, public),
{
    let n = name_members(s, 0, Status::Pending);
    let a = address_members(s, public);
    let e = seq![("error"@, Json::Str("연결 중"@))];
    lemma_name(s, 0, Status::Pending);
    lemma_address(s, public);
    assert(texts_of(e) =~= seq![entry("error"@, quoted("연결 중"@))]);
    lemma_both(n, a);
    lemma_both(n + a, e);
    lemma_object(n + a + e);
}

/// A server with the sample it has, as it is published.
pub open spec fn listed_value(s: Server, samples: Seq<(Seq<char>, Sample)>, public: bool) -> Json {
    match sample_of(samples, s.name@) {
        Some(d) => server_value(s, d, public),
        None => pending_value(s, public),
    }
}

/// A rack, as it is published.
pub open spec fn rack_value(r: Rack) -> Json {
    Json::Obj(
        seq![
            ("room"@, Json::Str(r.room@)),
            ("short"@, Json::Str(r.short@)),
            ("slots"@, Json::Arr(r.slots@.map_values(|s: String| Json::Str(s@)))),
        ],
    )
}

pub(crate) proof fn lemma_rack(r: Rack)
    ensures
        json_text(rack_value(r)) == rack_text(r),
{
    let vs = r.slots@.map_values(|s: String| Json::Str(s@));
    let ts = r.slots@.map_values(|s: String| quoted(s@));
    assert forall|i: int| 0 <= i < vs.len() implies #[trigger] ts[i] == json_text(vs[i]) by {}
    lemma_array_text(vs, ts);
    let m = rack_value(r)->Obj_0;
    lemma_object_text(
        m,
        seq![
            entry("room"@, quoted(r.room@)),
            entry("short"@, quoted(r.short@)),
            entry("slots"@, array_text(ts)),
        ],
    );
}

/// The counts over all servers, as they are published.
pub open spec fn counts_value(order: Seq<&Server>, samples: Seq<(Seq<char>, Sample)>) -> Json {
    let n = order.len() as int;
    let total = gpu_count(order, samples, n) as int;
    let busy = gpu_busy_count(order, samples, n) as int;
    Json::Obj(
        seq![
            ("servers_total"@, num(n)),
            ("servers_up"@, num(up_count(order, samples, n) as int)),
            ("gpus_total"@, num(total)),
            ("gpus_busy"@, num(busy)),
            ("gpus_free"@, num(total - busy)),
        ],
    )
}

pub(crate) proof fn lemma_counts(order: Seq<&Server>, samples: Seq<(Seq<char>, Sample)>)
    ensures
        json_text(counts_value(order, samples)) == summary_text(order, samples),
{
    let n = order.len() as int;
    let total = gpu_count(order, samples, n);
    let busy = gpu_busy_count(order, samples, n);
    lemma_object_text(
        counts_value(order, samples)->Obj_0,
        seq![
            entry("servers_total"@, num_text(whole(n))),
            entry("servers_up"@, num_text(whole(up_count(order, samples, n) as int))),
            entry("gpus_total"@, num_text(whole(total as int))),
            entry("gpus_busy"@, num_text(whole(busy as int))),
            entry("gpus_free"@, num_text(whole(total - busy))),
        ],
    );
}

/// The snapshot, as a value.
pub open spec fn snapshot_value(
    racks: Seq<Rack>,
    order: Seq<&Server>,
    samples: Seq<(Seq<char>, Sample)>,
    public: bool,
) -> Json {
    Json::Obj(
        seq![
            ("generated_at"@, num(oldest_ts(order, samples, order.len() as int) as int)),
            ("poll_interval_sec"@, num(1)),
            ("racks"@, Json::Arr(racks.map_values(|r: Rack| rack_value(r)))),
            ("summary"@, counts_value(order, samples)),
            (
                "servers"@,
                Json::Arr(order.map_values(|s: &Server| listed_value(*s, samples, public))),
            ),
        ] + if public {
            seq![("redacted"@, Json::Bool(true))]
        } else {
            seq![]
        },
    )
}

proof fn lemma_racks(racks: Seq<Rack>)
    ensures
        json_text(Json::Arr(racks.map_values(|r: Rack| rack_value(r)))) == array_text(
            racks.map_values(|r: Rack| rack_text(r)),
        ),
{
    let rv = racks.map_values(|r: Rack| rack_value(r));
    let rt = racks.map_values(|r: Rack| rack_text(r));
    assert forall|i: int| 0 <= i < rv.len() implies #[trigger] rt[i] == json_text(rv[i]) by {
        lemma_rack(racks[i]);
    }
    lemma_array_text(rv, rt);
}

pub(crate) proof fn lemma_listed(s: Server, samples: Seq<(Seq<char>, Sample)>, public: bool)
    ensures
        json_text(listed_value(s, samples, public)) == listed_server(s, samples, public),
{
    match sample_of(samples, s.name@) {
        Some(d) => {
            lemma_server(s, d, public);
        },
        None => {
            lemma_pending(s, public);
        },
    }
}

proof fn lemma_servers(order: Seq<&Server>, samples: Seq<(Seq<char>, Sample)>, public: bool)
    ensures
        json_text(
            Json::Arr(order.map_values(|s: &Server| listed_value(*s, samples, public))),
        ) == array_text(order.map_values(|s: &Server| listed_server(*s, samples, public))),
{
    let sv = order.map_values(|s: &Server| listed_value(*s, samples, public));
    let st = order.map_values(|s: &Server| listed_server(*s, samples, public));
    assert forall|i: int| 0 <= i < sv.len() implies #[trigger] st[i] == json_text(sv[i]) by {
        lemma_listed(*order[i], samples, public);
    }
    lemma_array_text(sv, st);
}

/// The members of the snapshot, by the texts of their values.
proof fn lemma_snapshot_members(
    g: Json,
    p: Json,
    r: Json,
    c: Json,
    v: Json,
    public: bool,
)
    ensures
        json_text(
            Json::Obj(
                seq![
                    ("generated_at"@, g),
                    ("poll_interval_sec"@, p),
                    ("racks"@, r),
                    ("summary"@, c),
                    ("servers"@, v),
                ] + if public {
                    seq![("redacted"@, Json::Bool(true))]
                } else {
                    seq![]
                },
            ),
        ) == object_text(
            seq![
                entry("generated_at"@, json_text(g)),
                entry("poll_interval_sec"@, json_text(p)),
                entry("racks"@, json_text(r)),
                entry("summary"@, json_text(c)),
                entry("servers"@, json_text(v)),
            ] + if public {
                seq![entry("redacted"@, "true"@)]
            } else {
                seq![]
            },
        ),
{
    let a = seq![
        ("generated_at"@, g),
        ("poll_interval_sec"@, p),
        ("racks"@, r),
        ("summary"@, c),
        ("servers"@, v),
    ];
    let at = seq![
        entry("generated_at"@, json_text(g)),
        entry("poll_interval_sec"@, json_text(p)),
        entry("racks"@, json_text(r)),
        entry("summary"@, json_text(c)),
        entry("servers"@, json_text(v)),
    ];
    assert(texts_of(a) =~= at);
    let z: Seq<(Seq<char>, Json)> = if public {
        seq![("redacted"@, Json::Bool(true))]
    } else {
        seq![]
    };
    let zt: Seq<Seq<char>> = if public {
        seq![entry("redacted"@, "true"@)]
    } else {
        seq![]
    };
    assert(texts_of(z) =~= zt);
    lemma_both(a, z);
    lemma_object(a + z);
}

proof fn lemma_snapshot_text(
    racks: Seq<Rack>,
    order: Seq<&Server>,
    samples: Seq<(Seq<char>, Sample)>,
    public: bool,
)
    ensures
        json_text(snapshot_value(racks, order, samples, public)) == snapshot(
            racks,
            order,
            samples,
            public,
        ),
{
    lemma_racks(racks);
    lemma_counts(order, samples);
    lemma_servers(order, samples, public);
    lemma_snapshot_members(
        num(oldest_ts(order, samples, order.len() as int) as int),
        num(1),
        Json::Arr(racks.map_values(|r: Rack| rack_value(r))),
        counts_value(order, samples),
        Json::Arr(order.map_values(|s: &Server| listed_value(*s, samples, public))),
        public,
    );
}

/// The snapshot that is published reads back as what was published, but for the places that its
/// numbers are rounded to.
pub proof fn lemma_snapshot_reads(
    racks: Seq<Rack>,
    order: Seq<&Server>,
    samples: Seq<(Seq<char>, Sample)>,
    public: bool,
)
    requires
        is_writable(snapshot_value(racks, order, samples, public)),
    ensures
        parsed_json(snapshot(racks, order, samples, public)) == Ok::<Json, Seq<char>>(
            read_back(snapshot_value(racks, order, samples, public)),
        ),
{
    lemma_snapshot_text(racks, order, samples, public);
    lemma_json_round_trip(snapshot_value(racks, order, samples, public));
}

// ---------------------------------------------------------------- the statistics

/// A column, as a value.
pub open spec fn column_value(rows: Seq<Row>, c: Column) -> Json {
    Json::Arr(Seq::new(rows.len(), |i: int| num(column_of(rows[i], c))))
}

proof fn lemma_column(rows: Seq<Row>, c: Column)
    ensures
        json_text(column_value(rows, c)) == array_text(column_texts(rows, c)),
{
    let vs = column_value(rows, c)->Arr_0;
    let ts = column_texts(rows, c);
    assert forall|i: int| 0 <= i < vs.len() implies #[trigger] ts[i] == json_text(vs[i]) by {}
    lemma_array_text(vs, ts);
}

/// The columns of one server in one range, as a value.
pub open spec fn columns_value(rows: Seq<Row>) -> Json {
    Json::Obj(
        seq![
            ("w"@, column_value(rows, Column::Watts)),
            ("u"@, column_value(rows, Column::UtilAvg)),
            ("x"@, column_value(rows, Column::UtilMax)),
            ("t"@, column_value(rows, Column::TempMax)),
            ("b"@, column_value(rows, Column::Busy)),
            ("g"@, column_value(rows, Column::Gpus)),
        ],
    )
}

pub(crate) proof fn lemma_columns(rows: Seq<Row>)
    ensures
        json_text(columns_value(rows)) == columns_text(rows),
{
    lemma_column(rows, Column::Watts);
    lemma_column(rows, Column::UtilAvg);
    lemma_column(rows, Column::UtilMax);
    lemma_column(rows, Column::TempMax);
    lemma_column(rows, Column::Busy);
    lemma_column(rows, Column::Gpus);
    lemma_object_text(
        columns_value(rows)->Obj_0,
        seq![
            entry("w"@, array_text(column_texts(rows, Column::Watts))),
            entry("u"@, array_text(column_texts(rows, Column::UtilAvg))),
            entry("x"@, array_text(column_texts(rows, Column::UtilMax))),
            entry("t"@, array_text(column_texts(rows, Column::TempMax))),
            entry("b"@, array_text(column_texts(rows, Column::Busy))),
            entry("g"@, array_text(column_texts(rows, Column::Gpus))),
        ],
    );
}

/// A server, for the statistics, as a value.
pub open spec fn about_value(s: Server) -> Json {
    Json::Obj(
        seq![
            ("name"@, Json::Str(s.name@)),
            ("gpu"@, Json::Str(s.gpu_model@)),
            ("n_gpu"@, num(s.n_gpu as int)),
            ("loc"@, Json::Str(s.loc@)),
        ],
    )
}

pub(crate) proof fn lemma_about(s: Server)
    ensures
        json_text(about_value(s)) == about(s),
{
    lemma_object_text(
        about_value(s)->Obj_0,
        seq![
            entry("name"@, quoted(s.name@)),
            entry("gpu"@, quoted(s.gpu_model@)),
            entry("n_gpu"@, num_text(whole(s.n_gpu as int))),
            entry("loc"@, quoted(s.loc@)),
        ],
    );
}

/// The columns of every server in one range, as a value.
pub open spec fn data_value(
    active: Seq<&Server>,
    data: Seq<Vec<Row>>,
    from: u32,
    step: u32,
    n: nat,
) -> Json {
    Json::Obj(
        Seq::new(
            active.len(),
            |i: int| (active[i].name@, columns_value(slot_rows(data[i]@, from, step, n))),
        ),
    )
}

proof fn lemma_data(active: Seq<&Server>, data: Seq<Vec<Row>>, from: u32, step: u32, n: nat)
    ensures
        json_text(data_value(active, data, from, step, n)) == object_text(
            data_entries(active, data, from, step, n),
        ),
{
    let m = data_value(active, data, from, step, n)->Obj_0;
    let ts = data_entries(active, data, from, step, n);
    assert forall|i: int| 0 <= i < m.len() implies #[trigger] ts[i] == entry(
        m[i].0,
        json_text(m[i].1),
    ) by {
        lemma_columns(slot_rows(data[i]@, from, step, n));
    }
    lemma_object_text(m, ts);
}

/// One range of the statistics, as a value.
pub open spec fn range_value(
    active: Seq<&Server>,
    data: Seq<Vec<Row>>,
    span: u32,
    slots: usize,
    now: u32,
) -> Json {
    let from = start_of(span, slots, now);
    let step = step_of(span, slots);
    let n = slots_of(slots);
    Json::Obj(
        seq![
            ("from"@, num(from as int)),
            ("step"@, num(step as int)),
            ("n"@, num(n as int)),
            ("data"@, data_value(active, data, from, step, n as nat)),
        ],
    )
}

pub(crate) proof fn lemma_range(
    active: Seq<&Server>,
    data: Seq<Vec<Row>>,
    span: u32,
    slots: usize,
    now: u32,
)
    ensures
        json_text(range_value(active, data, span, slots, now)) == range_text(
            active,
            data,
            span,
            slots,
            now,
        ),
{
    let from = start_of(span, slots, now);
    let step = step_of(span, slots);
    let n = slots_of(slots);
    lemma_data(active, data, from, step, n as nat);
    lemma_object_text(
        range_value(active, data, span, slots, now)->Obj_0,
        seq![
            entry("from"@, num_text(whole(from as int))),
            entry("step"@, num_text(whole(step as int))),
            entry("n"@, num_text(whole(n as int))),
            entry("data"@, object_text(data_entries(active, data, from, step, n as nat))),
        ],
    );
}

/// The ranges of the statistics, as members.
pub open spec fn range_members(
    active: Seq<&Server>,
    ranges: Seq<(&str, u32, usize)>,
    data: Seq<Vec<Vec<Row>>>,
    now: u32,
) -> Seq<(Seq<char>, Json)> {
    Seq::new(
        ranges.len(),
        |i: int|
            (ranges[i].0@, range_value(active, data[i]@, ranges[i].1, ranges[i].2, now)),
    )
}

/// The statistics, as a value.
pub open spec fn stats_value(
    active: Seq<&Server>,
    ranges: Seq<(&str, u32, usize)>,
    data: Seq<Vec<Vec<Row>>>,
    now: u32,
) -> Json {
    Json::Obj(
        seq![
            ("now"@, num(now as int)),
            ("servers"@, Json::Arr(active.map_values(|s: &Server| about_value(*s)))),
            ("ranges"@, Json::Obj(range_members(active, ranges, data, now))),
        ],
    )
}

proof fn lemma_abouts(active: Seq<&Server>)
    ensures
        json_text(Json::Arr(active.map_values(|s: &Server| about_value(*s)))) == array_text(
            active.map_values(|s: &Server| about(*s)),
        ),
{
    let sv = active.map_values(|s: &Server| about_value(*s));
    let st = active.map_values(|s: &Server| about(*s));
    assert forall|i: int| 0 <= i < sv.len() implies #[trigger] st[i] == json_text(sv[i]) by {
        lemma_about(*active[i]);
    }
    lemma_array_text(sv, st);
}

proof fn lemma_ranges(
    active: Seq<&Server>,
    ranges: Seq<(&str, u32, usize)>,
    data: Seq<Vec<Vec<Row>>>,
    now: u32,
)
    ensures
        json_text(Json::Obj(range_members(active, ranges, data, now))) == object_text(
            range_entries(active, ranges, data, now),
        ),
{
    let rm = range_members(active, ranges, data, now);
    let rt = range_entries(active, ranges, data, now);
    assert forall|i: int| 0 <= i < rm.len() implies #[trigger] rt[i] == entry(
        rm[i].0,
        json_text(rm[i].1),
    ) by {
        lemma_range(active, data[i]@, ranges[i].1, ranges[i].2, now);
    }
    lemma_object_text(rm, rt);
}

/// The members of the statistics, by the texts of their values.
proof fn lemma_stats_members(n: Json, s: Json, r: Json)
    ensures
        json_text(Json::Obj(seq![("now"@, n), ("servers"@, s), ("ranges"@, r)])) == object_text(
            seq![
                entry("now"@, json_text(n)),
                entry("servers"@, json_text(s)),
                entry("ranges"@, json_text(r)),
            ],
        ),
{
    lemma_object_text(
        seq![("now"@, n), ("servers"@, s), ("ranges"@, r)],
        seq![
            entry("now"@, json_text(n)),
            entry("servers"@, json_text(s)),
            entry("ranges"@, json_text(r)),
        ],
    );
}

proof fn lemma_stats_text(
    active: Seq<&Server>,
    ranges: Seq<(&str, u32, usize)>,
    data: Seq<Vec<Vec<Row>>>,
    now: u32,
)
    ensures
        json_text(stats_value(active, ranges, data, now)) == stats_text(active, ranges, data, now),
{
    lemma_abouts(active);
    lemma_ranges(active, ranges, data, now);
    lemma_stats_members(
        num(now as int),
        Json::Arr(active.map_values(|s: &Server| about_value(*s))),
        Json::Obj(range_members(active, ranges, data, now)),
    );
}

/// The statistics that are published read back as what was published.
pub proof fn lemma_stats_read(
    active: Seq<&Server>,
    ranges: Seq<(&str, u32, usize)>,
    data: Seq<Vec<Vec<Row>>>,
    now: u32,
)
    requires
        is_writable(stats_value(active, ranges, data, now)),
    ensures
        parsed_json(stats_text(active, ranges, data, now)) == Ok::<Json, Seq<char>>(
            read_back(stats_value(active, ranges, data, now)),
        ),
{
    lemma_stats_text(active, ranges, data, now);
    lemma_json_round_trip(stats_value(active, ranges, data, now));
}

// ---------------------------------------------------------------- the summary

/// The published summary, as a value.
pub open spec fn summary_value(text: Seq<char>, ts: u32, model: Seq<char>) -> Json {
    Json::Obj(
        seq![("ts"@, num(ts as int)), ("model"@, Json::Str(model)), ("text"@, Json::Str(text))],
    )
}

pub(crate) proof fn lemma_plain_number(k: nat)
    requires
        k < 1_000_000_000_000_000,
    ensures
        plain_integer(whole(k as int)),
{
    let x = whole(k as int);
    lemma_whole_exact(k);
    lemma_whole_exact(1_000_000_000_000_000);
    vstd::arithmetic::power2::lemma_pow2_pos(1074);
    let u = crate::double::one() as int;
    assert(x.size() == k * u);
    assert((k as int * u) % u == 0) by {
        vstd::arithmetic::div_mod::lemma_mod_multiples_basic(k as int, u);
    }
    let y = with_sign(false, x.magnitude());
    assert(y == x);
    assert(k * u < 1_000_000_000_000_000 * u) by (nonlinear_arith)
        requires
            k < 1_000_000_000_000_000,
            u > 0,
    ;
    lemma_order(x, whole(1_000_000_000_000_000));
}

pub(crate) proof fn lemma_summary_text(text: Seq<char>, ts: u32, model: Seq<char>)
    ensures
        json_text(summary_value(text, ts, model)) == published(text, ts, model),
{
    lemma_object_text(
        summary_value(text, ts, model)->Obj_0,
        seq![
            entry("ts"@, num_text(whole(ts as int))),
            entry("model"@, quoted(model)),
            entry("text"@, quoted(text)),
        ],
    );
}

pub(crate) proof fn lemma_summary_writable(text: Seq<char>, ts: u32, model: Seq<char>)
    ensures
        is_writable(summary_value(text, ts, model)),
{
    lemma_plain_number(ts as nat);
    let m = summary_value(text, ts, model)->Obj_0;
    assert(is_writable(num(ts as int)));
    assert forall|i: int| 0 <= i < m.len() implies is_writable((#[trigger] m[i]).1) by {
        assert(i == 0 || i == 1 || i == 2);
    }
}

/// The summary that is published reads back as what was published.
pub proof fn lemma_summary_reads(text: Seq<char>, ts: u32, model: Seq<char>)
    ensures
        parsed_json(published(text, ts, model)) == Ok::<Json, Seq<char>>(
            read_back(summary_value(text, ts, model)),
        ),
{
    lemma_summary_text(text, ts, model);
    lemma_summary_writable(text, ts, model);
    lemma_json_round_trip(summary_value(text, ts, model));
}

} // verus!
