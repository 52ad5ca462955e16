//! The configuration, the samples, and the snapshot that the dashboard reads.

use vstd::prelude::*;
use crate::double::{at_most, less, nearest, saturated, whole, Double};
use crate::json::{
    array_text, bool_member, debug_str, entry, json, lemma_entry, lemma_listed_push, listed, member,
    num_member, num_text, object_text, opt_num_text, parse, parsed_json, quoted, str_debug,
    text_member, Json, Value, Writer,
};
use crate::decimal::{all_digits, dec, literal, number};
use crate::gate::{DEFAULT_MAX_PER_WINDOW, DEFAULT_MIN_GAP, DEFAULT_WINDOW};
use crate::table::{lemma_before_total, lemma_before_transitive, lookup, Table};
use crate::text::{before, chars_of, decimal, is_digit, own, str_before};

verus! {

broadcast use vstd::string::group_string_axioms;

// ---------------------------------------------------------------- samples

/// A server in the configuration.
#[derive(Debug, Clone)]
pub struct Server {
    pub name: String,
    pub host: String,
    pub port: u16,
    pub gpu_model: String,
    pub n_gpu: usize,
    pub loc: String,
    pub identity: Option<String>,
    pub enabled: bool,
    pub pin_address: bool,
    pub note: String,
}

/// A rack, with the servers in its slots.
#[derive(Debug, Clone)]
pub struct Rack {
    pub room: String,
    pub short: String,
    pub slots: Vec<String>,
}

/// The configuration.
#[derive(Debug, Clone)]
pub struct Config {
    pub ssh_user: String,
    pub public_mode: bool,
    pub min_gap: Double,
    pub window: Double,
    pub max_per_window: usize,
    pub connect_timeout: u64,
    pub power_points: usize,
    pub power_log: bool,
    pub stats_period: u32,
    pub stats_keep_days: i64,
    pub servers: Vec<Server>,
    pub racks: Vec<Rack>,
}

/// What one graphics card reported.
#[derive(Debug, Clone, Default)]
pub struct Gpu {
    pub index: u32,
    pub name: String,
    pub util: Option<Double>,
    pub mem_used: Option<Double>,
    pub mem_total: Option<Double>,
    pub power: Option<Double>,
    pub power_limit: Option<Double>,
    pub temp: Option<Double>,
    pub fan: Option<Double>,
    /// The memory of each process; who runs it never leaves the host.
    pub procs: Vec<Double>,
}

/// What the host reported.
#[derive(Debug, Clone, Default)]
pub struct Host {
    pub load1: Option<Double>,
    pub nproc: u32,
    pub ram_total_mb: Option<Double>,
    pub ram_used_mb: Option<Double>,
    pub disk_total_kb: Option<Double>,
    pub disk_used_kb: Option<Double>,
    pub uptime_sec: Option<Double>,
}

/// How a server is doing.
#[derive(Debug, Clone, Copy, PartialEq, Eq, Structural)]
pub enum Status {
    Up,
    Pending,
    Down,
    NoGpu,
}

/// The name of a status.
pub open spec fn status_name(s: Status) -> Seq<char> {
    match s {
        Status::Up => "ok"@,
        Status::Pending => "pending"@,
        Status::Down => "down"@,
        Status::NoGpu => "nogpu"@,
    }
}

impl Status {
    /// The name of the status.
    pub fn as_str(&self) -> (r: &'static str)
        ensures
            r@ == status_name(*self),
    {
        match self {
            Status::Up => "ok",
            Status::Pending => "pending",
            Status::Down => "down",
            Status::NoGpu => "nogpu",
        }
    }
}

/// What a server reported last.
#[derive(Debug, Clone)]
pub struct Sample {
    pub status: Status,
    pub error: String,
    pub ts: u64,
    pub gpus: Vec<Gpu>,
    pub host: Host,
    pub watts: Option<Double>,
    pub watt_history: Vec<Double>,
}

/// Whether `h` holds nothing.
pub open spec fn is_blank_host(h: Host) -> bool {
    &&& h.load1 is None
    &&& h.nproc == 0
    &&& h.ram_total_mb is None
    &&& h.ram_used_mb is None
    &&& h.disk_total_kb is None
    &&& h.disk_used_kb is None
    &&& h.uptime_sec is None
}

/// Whether `s` is the sample of a server that has reported nothing yet.
pub open spec fn is_blank(s: Sample) -> bool {
    &&& s.status == Status::Pending
    &&& s.error@ == "연결 중"@
    &&& s.ts == 0
    &&& s.gpus@.len() == 0
    &&& is_blank_host(s.host)
    &&& s.watts is None
    &&& s.watt_history@.len() == 0
}

/// A host that has reported nothing.
pub fn blank_host() -> (r: Host)
    ensures
        is_blank_host(r),
{
    Host {
        load1: None,
        nproc: 0,
        ram_total_mb: None,
        ram_used_mb: None,
        disk_total_kb: None,
        disk_used_kb: None,
        uptime_sec: None,
    }
}

impl Default for Sample {
    /// The sample of a server that has reported nothing yet.
    fn default() -> (r: Self)
        ensures
            is_blank(r),
    {
        Sample {
            status: Status::Pending,
            error: own("연결 중"),
            ts: 0,
            gpus: Vec::new(),
            host: blank_host(),
            watts: None,
            watt_history: Vec::new(),
        }
    }
}

/// The number, or zero where there is none.
pub open spec fn or_zero(n: Option<Double>) -> Double {
    match n {
        Some(n) => n,
        None => whole(0),
    }
}

/// Whether a card is busy: at five percent or more, or with more than 512 MB in use.
pub open spec fn is_busy(g: Gpu) -> bool {
    at_most(whole(5), or_zero(g.util)) || less(whole(512), or_zero(g.mem_used))
}

fn value_or_zero(n: Option<Double>) -> (r: Double)
    ensures
        r == or_zero(n),
{
    match n {
        Some(n) => n,
        None => Double::from_u64(0),
    }
}

/// Whether a card is busy: at five percent or more, or with more than 512 MB in use.
pub fn gpu_is_busy(g: &Gpu) -> (r: bool)
    ensures
        r == is_busy(*g),
{
    Double::from_u64(5).le(value_or_zero(g.util)) || Double::from_u64(512).lt(
        value_or_zero(g.mem_used),
    )
}

// ---------------------------------------------------------------- the snapshot

/// The member `k`, where there is a number for it.
pub open spec fn opt_entries(k: Seq<char>, n: Option<Double>) -> Seq<Seq<char>> {
    match n {
        Some(n) => seq![entry(k, num_text(n))],
        None => seq![],
    }
}

/// A card, for the snapshot.
pub open spec fn gpu_text(g: Gpu) -> Seq<char> {
    object_text(
        seq![
            entry("index"@, num_text(whole(g.index as int))),
            entry("name"@, quoted(g.name@)),
            entry("util"@, opt_num_text(g.util)),
            entry("mem_used"@, opt_num_text(g.mem_used)),
            entry("mem_total"@, opt_num_text(g.mem_total)),
            entry("power"@, opt_num_text(g.power)),
            entry("power_limit"@, opt_num_text(g.power_limit)),
            entry("temp"@, opt_num_text(g.temp)),
            entry("fan"@, opt_num_text(g.fan)),
            entry("procs"@, array_text(g.procs@.map_values(|m: Double| proc_text(m)))),
        ],
    )
}

/// A process, for the snapshot.
pub open spec fn proc_text(m: Double) -> Seq<char> {
    object_text(seq![entry("mem"@, num_text(m))])
}

/// What the public snapshot says of an error.
pub open spec fn public_error(s: Status) -> Seq<char> {
    match s {
        Status::Pending => "연결 중"@,
        Status::NoGpu => "no GPU reported"@,
        _ => "unreachable"@,
    }
}

/// The address of a server, which only the internal snapshot has.
pub open spec fn address_entries(s: Server, public: bool) -> Seq<Seq<char>> {
    if public {
        seq![]
    } else {
        seq![
            entry("host"@, quoted(s.host@)),
            entry("port"@, num_text(whole(s.port as int))),
        ] + if s.note@.len() == 0 {
            seq![]
        } else {
            seq![entry("note"@, quoted(s.note@))]
        }
    }
}

/// What the snapshot says of an error.
pub open spec fn error_entries(d: Sample, public: bool) -> Seq<Seq<char>> {
    if d.status == Status::Up {
        seq![]
    } else {
        seq![
            entry(
                "error"@,
                quoted(
                    if public {
                        public_error(d.status)
                    } else {
                        d.error@
                    },
                ),
            ),
        ]
    }
}

/// What the snapshot says of the host.
pub open spec fn host_entries(h: Host) -> Seq<Seq<char>> {
    opt_entries("load1"@, h.load1) + (if h.nproc > 0 {
        seq![entry("nproc"@, num_text(whole(h.nproc as int)))]
    } else {
        seq![]
    }) + opt_entries("ram_total_mb"@, h.ram_total_mb) + opt_entries("ram_used_mb"@, h.ram_used_mb)
        + opt_entries("disk_total_kb"@, h.disk_total_kb) + opt_entries(
        "disk_used_kb"@,
        h.disk_used_kb,
    ) + opt_entries("uptime_sec"@, h.uptime_sec)
}

/// What the snapshot says of the power drawn.
pub open spec fn power_entries(d: Sample) -> Seq<Seq<char>> {
    opt_entries("watts"@, d.watts) + if d.watt_history@.len() == 0 {
        seq![]
    } else {
        seq![
            entry(
                "watt_history"@,
                array_text(d.watt_history@.map_values(|v: Double| num_text(nearest(v)))),
            ),
        ]
    }
}

/// What the snapshot says of the cards.
pub open spec fn gpu_entries(d: Sample) -> Seq<Seq<char>> {
    if d.gpus@.len() == 0 {
        seq![]
    } else {
        seq![entry("gpus"@, array_text(d.gpus@.map_values(|g: Gpu| gpu_text(g))))]
    }
}

/// A server, for the snapshot.
pub open spec fn server_text(s: Server, d: Sample, public: bool) -> Seq<char> {
    object_text(
        seq![
            entry("name"@, quoted(s.name@)),
            entry("gpu_model"@, quoted(s.gpu_model@)),
            entry("n_gpu_expected"@, num_text(whole(s.n_gpu as int))),
            entry("loc"@, quoted(s.loc@)),
            entry("ts"@, num_text(whole(d.ts as int))),
            entry("status"@, quoted(status_name(d.status))),
        ] + address_entries(s, public) + error_entries(d, public) + host_entries(d.host)
            + power_entries(d) + gpu_entries(d),
    )
}

/// Writes the member `k`, where there is a number for it.
fn opt_member(
    w: &mut Writer,
    Ghost(b): Ghost<Seq<char>>,
    Ghost(ts): Ghost<Seq<Seq<char>>>,
    k: &str,
    n: Option<Double>,
)
    requires
        old(w).buf@ == b + listed(ts),
        ts.len() > 0,
    ensures
        final(w).buf@ == b + listed(ts + opt_entries(k@, n)),
{
    if let Some(n) = n {
        w.num_entry(Ghost(b), Ghost(ts), false, k, n);
        assert(ts.push(entry(k@, num_text(n))) =~= ts + opt_entries(k@, Some(n)));
    } else {
        assert(ts + opt_entries(k@, n) =~= ts);
    }
}

fn write_procs(w: &mut Writer, procs: &Vec<Double>)
    ensures
        final(w).buf@ == old(w).buf@ + array_text(
            procs@.map_values(|m: Double| proc_text(m)),
        ),
{
    let ghost b0 = w.buf@;
    let ghost all = procs@.map_values(|m: Double| proc_text(m));
    w.raw("[");
    let ghost b = w.buf@;
    let mut i: usize = 0;
    assert(b + listed(all.take(0)) =~= b);
    while i < procs.len()
        invariant
            i <= procs@.len(),
            all == procs@.map_values(|m: Double| proc_text(m)),
            w.buf@ == b + listed(all.take(i as int)),
        decreases procs@.len() - i,
    {
        let ghost ts = all.take(i as int);
        w.comma(i == 0);
        w.raw("{");
        w.key("mem");
        w.num(procs[i]);
        w.raw("}");
        proof {
            reveal_strlit("{");
            reveal_strlit("}");
            let t = proc_text(procs@[i as int]);
            lemma_listed_push(ts, t);
            assert(all.take(i + 1) =~= ts.push(t));
            assert(w.buf@ =~= b + listed(ts.push(t)));
        }
        i = i + 1;
    }
    w.raw("]");
    proof {
        reveal_strlit("[");
        reveal_strlit("]");
        assert(all.take(all.len() as int) =~= all);
        assert(w.buf@ =~= b0 + array_text(all));
    }
}

fn write_gpu(w: &mut Writer, g: &Gpu)
    ensures
        final(w).buf@ == old(w).buf@ + gpu_text(*g),
{
    let ghost b0 = w.buf@;
    w.raw("{");
    let ghost b = w.buf@;
    let ghost mut ts: Seq<Seq<char>> = seq![];
    assert(b + listed(ts) =~= b);
    w.num_entry(Ghost(b), Ghost(ts), true, "index", Double::from_u64(g.index as u64));
    proof {
        ts = ts.push(entry("index"@, num_text(whole(g.index as int))));
    }
    w.str_entry(Ghost(b), Ghost(ts), false, "name", g.name.as_str());
    proof {
        ts = ts.push(entry("name"@, quoted(g.name@)));
    }
    w.opt_entry(Ghost(b), Ghost(ts), false, "util", g.util);
    proof {
        ts = ts.push(entry("util"@, opt_num_text(g.util)));
    }
    w.opt_entry(Ghost(b), Ghost(ts), false, "mem_used", g.mem_used);
    proof {
        ts = ts.push(entry("mem_used"@, opt_num_text(g.mem_used)));
    }
    w.opt_entry(Ghost(b), Ghost(ts), false, "mem_total", g.mem_total);
    proof {
        ts = ts.push(entry("mem_total"@, opt_num_text(g.mem_total)));
    }
    w.opt_entry(Ghost(b), Ghost(ts), false, "power", g.power);
    proof {
        ts = ts.push(entry("power"@, opt_num_text(g.power)));
    }
    w.opt_entry(Ghost(b), Ghost(ts), false, "power_limit", g.power_limit);
    proof {
        ts = ts.push(entry("power_limit"@, opt_num_text(g.power_limit)));
    }
    w.opt_entry(Ghost(b), Ghost(ts), false, "temp", g.temp);
    proof {
        ts = ts.push(entry("temp"@, opt_num_text(g.temp)));
    }
    w.opt_entry(Ghost(b), Ghost(ts), false, "fan", g.fan);
    proof {
        ts = ts.push(entry("fan"@, opt_num_text(g.fan)));
    }
    w.comma(false);
    w.key("procs");
    write_procs(w, &g.procs);
    w.raw("}");
    proof {
        reveal_strlit("{");
        reveal_strlit("}");
        let t = entry("procs"@, array_text(g.procs@.map_values(|m: Double| proc_text(m))));
        lemma_listed_push(ts, t);
        let all = seq![
            entry("index"@, num_text(whole(g.index as int))),
            entry("name"@, quoted(g.name@)),
            entry("util"@, opt_num_text(g.util)),
            entry("mem_used"@, opt_num_text(g.mem_used)),
            entry("mem_total"@, opt_num_text(g.mem_total)),
            entry("power"@, opt_num_text(g.power)),
            entry("power_limit"@, opt_num_text(g.power_limit)),
            entry("temp"@, opt_num_text(g.temp)),
            entry("fan"@, opt_num_text(g.fan)),
            t,
        ];
        assert(ts.push(t) =~= all);
        assert(w.buf@ =~= b0 + object_text(all));
    }
}

fn write_history(w: &mut Writer, history: &Vec<Double>)
    ensures
        final(w).buf@ == old(w).buf@ + array_text(
            history@.map_values(|v: Double| num_text(nearest(v))),
        ),
{
    let ghost b0 = w.buf@;
    let ghost all = history@.map_values(|v: Double| num_text(nearest(v)));
    w.raw("[");
    let ghost b = w.buf@;
    let mut i: usize = 0;
    assert(b + listed(all.take(0)) =~= b);
    while i < history.len()
        invariant
            i <= history@.len(),
            all == history@.map_values(|v: Double| num_text(nearest(v))),
            w.buf@ == b + listed(all.take(i as int)),
        decreases history@.len() - i,
    {
        let ghost ts = all.take(i as int);
        w.comma(i == 0);
        w.num(history[i].round());
        proof {
            let t = num_text(nearest(history@[i as int]));
            lemma_listed_push(ts, t);
            assert(all.take(i + 1) =~= ts.push(t));
            assert(w.buf@ =~= b + listed(ts.push(t)));
        }
        i = i + 1;
    }
    w.raw("]");
    proof {
        reveal_strlit("[");
        reveal_strlit("]");
        assert(all.take(all.len() as int) =~= all);
        assert(w.buf@ =~= b0 + array_text(all));
    }
}

fn write_gpus(w: &mut Writer, gpus: &Vec<Gpu>)
    ensures
        final(w).buf@ == old(w).buf@ + array_text(gpus@.map_values(|g: Gpu| gpu_text(g))),
{
    let ghost b0 = w.buf@;
    let ghost all = gpus@.map_values(|g: Gpu| gpu_text(g));
    w.raw("[");
    let ghost b = w.buf@;
    let mut i: usize = 0;
    assert(b + listed(all.take(0)) =~= b);
    while i < gpus.len()
        invariant
            i <= gpus@.len(),
            all == gpus@.map_values(|g: Gpu| gpu_text(g)),
            w.buf@ == b + listed(all.take(i as int)),
        decreases gpus@.len() - i,
    {
        let ghost ts = all.take(i as int);
        w.comma(i == 0);
        write_gpu(w, &gpus[i]);
        proof {
            let t = gpu_text(gpus@[i as int]);
            lemma_listed_push(ts, t);
            assert(all.take(i + 1) =~= ts.push(t));
            assert(w.buf@ =~= b + listed(ts.push(t)));
        }
        i = i + 1;
    }
    w.raw("]");
    proof {
        reveal_strlit("[");
        reveal_strlit("]");
        assert(all.take(all.len() as int) =~= all);
        assert(w.buf@ =~= b0 + array_text(all));
    }
}

fn write_address(
    w: &mut Writer,
    Ghost(b): Ghost<Seq<char>>,
    Ghost(ts): Ghost<Seq<Seq<char>>>,
    s: &Server,
    public: bool,
)
    requires
        old(w).buf@ == b + listed(ts),
        ts.len() > 0,
    ensures
        final(w).buf@ == b + listed(ts + address_entries(*s, public)),
{
    if public {
        assert(ts + address_entries(*s, public) =~= ts);
        return ;
    }
    let ghost h = entry("host"@, quoted(s.host@));
    let ghost p = entry("port"@, num_text(whole(s.port as int)));
    w.str_entry(Ghost(b), Ghost(ts), false, "host", s.host.as_str());
    w.num_entry(Ghost(b), Ghost(ts.push(h)), false, "port", Double::from_u64(s.port as u64));
    let empty: bool = crate::text::eq_str(s.note.as_str(), "");
    proof {
        reveal_strlit("");
        assert(empty == (s.note@.len() == 0)) by {
            if s.note@.len() == 0 {
                assert(s.note@ =~= ""@);
            }
        }
    }
    if !empty {
        w.str_entry(Ghost(b), Ghost(ts.push(h).push(p)), false, "note", s.note.as_str());
        assert(ts.push(h).push(p).push(entry("note"@, quoted(s.note@))) =~= ts + address_entries(
            *s,
            public,
        ));
    } else {
        assert(ts.push(h).push(p) =~= ts + address_entries(*s, public));
    }
}

fn write_error(
    w: &mut Writer,
    Ghost(b): Ghost<Seq<char>>,
    Ghost(ts): Ghost<Seq<Seq<char>>>,
    d: &Sample,
    public: bool,
)
    requires
        old(w).buf@ == b + listed(ts),
        ts.len() > 0,
    ensures
        final(w).buf@ == b + listed(ts + error_entries(*d, public)),
{
    if d.status == Status::Up {
        assert(ts + error_entries(*d, public) =~= ts);
        return ;
    }
    // An ssh error names the host and the port, so the public snapshot has a fixed phrase
    // for each status.
    let e: &str = if public {
        match d.status {
            Status::Pending => "연결 중",
            Status::NoGpu => "no GPU reported",
            _ => "unreachable",
        }
    } else {
        d.error.as_str()
    };
    w.str_entry(Ghost(b), Ghost(ts), false, "error", e);
    assert(ts.push(entry("error"@, quoted(e@))) =~= ts + error_entries(*d, public));
}

proof fn lemma_chain(
    t: Seq<Seq<char>>,
    a: Seq<Seq<char>>,
    b: Seq<Seq<char>>,
    c: Seq<Seq<char>>,
    d: Seq<Seq<char>>,
    e: Seq<Seq<char>>,
    f: Seq<Seq<char>>,
    g: Seq<Seq<char>>,
)
    ensures
        t + a + b + c + d + e + f + g == t + (a + b + c + d + e + f + g),
{
    assert(t + a + b + c + d + e + f + g =~= t + (a + b + c + d + e + f + g));
}

fn write_host(w: &mut Writer, Ghost(b): Ghost<Seq<char>>, Ghost(ts): Ghost<Seq<Seq<char>>>, h: &Host)
    requires
        old(w).buf@ == b + listed(ts),
        ts.len() > 0,
    ensures
        final(w).buf@ == b + listed(ts + host_entries(*h)),
{
    let ghost mut a = ts;
    opt_member(w, Ghost(b), Ghost(a), "load1", h.load1);
    proof {
        a = a + opt_entries("load1"@, h.load1);
    }
    let n: Option<Double> = if h.nproc > 0 {
        Some(Double::from_u64(h.nproc as u64))
    } else {
        None
    };
    opt_member(w, Ghost(b), Ghost(a), "nproc", n);
    proof {
        a = a + opt_entries("nproc"@, n);
    }
    opt_member(w, Ghost(b), Ghost(a), "ram_total_mb", h.ram_total_mb);
    proof {
        a = a + opt_entries("ram_total_mb"@, h.ram_total_mb);
    }
    opt_member(w, Ghost(b), Ghost(a), "ram_used_mb", h.ram_used_mb);
    proof {
        a = a + opt_entries("ram_used_mb"@, h.ram_used_mb);
    }
    opt_member(w, Ghost(b), Ghost(a), "disk_total_kb", h.disk_total_kb);
    proof {
        a = a + opt_entries("disk_total_kb"@, h.disk_total_kb);
    }
    opt_member(w, Ghost(b), Ghost(a), "disk_used_kb", h.disk_used_kb);
    proof {
        a = a + opt_entries("disk_used_kb"@, h.disk_used_kb);
    }
    opt_member(w, Ghost(b), Ghost(a), "uptime_sec", h.uptime_sec);
    proof {
        a = a + opt_entries("uptime_sec"@, h.uptime_sec);
        lemma_chain(
            ts,
            opt_entries("load1"@, h.load1),
            opt_entries("nproc"@, n),
            opt_entries("ram_total_mb"@, h.ram_total_mb),
            opt_entries("ram_used_mb"@, h.ram_used_mb),
            opt_entries("disk_total_kb"@, h.disk_total_kb),
            opt_entries("disk_used_kb"@, h.disk_used_kb),
            opt_entries("uptime_sec"@, h.uptime_sec),
        );
    }
}

fn write_power(
    w: &mut Writer,
    Ghost(b): Ghost<Seq<char>>,
    Ghost(ts): Ghost<Seq<Seq<char>>>,
    d: &Sample,
)
    requires
        old(w).buf@ == b + listed(ts),
        ts.len() > 0,
    ensures
        final(w).buf@ == b + listed(ts + power_entries(*d)),
{
    opt_member(w, Ghost(b), Ghost(ts), "watts", d.watts);
    let ghost a = ts + opt_entries("watts"@, d.watts);
    if d.watt_history.len() > 0 {
        w.comma(false);
        w.key("watt_history");
        write_history(w, &d.watt_history);
        proof {
            let t = entry(
                "watt_history"@,
                array_text(d.watt_history@.map_values(|v: Double| num_text(nearest(v)))),
            );
            lemma_listed_push(a, t);
            assert(a.push(t) =~= ts + power_entries(*d));
            assert(w.buf@ =~= b + listed(a.push(t)));
        }
    } else {
        assert(a =~= ts + power_entries(*d));
    }
}

fn write_cards(
    w: &mut Writer,
    Ghost(b): Ghost<Seq<char>>,
    Ghost(ts): Ghost<Seq<Seq<char>>>,
    d: &Sample,
)
    requires
        old(w).buf@ == b + listed(ts),
        ts.len() > 0,
    ensures
        final(w).buf@ == b + listed(ts + gpu_entries(*d)),
{
    if d.gpus.len() > 0 {
        w.comma(false);
        w.key("gpus");
        write_gpus(w, &d.gpus);
        proof {
            let t = entry("gpus"@, array_text(d.gpus@.map_values(|g: Gpu| gpu_text(g))));
            lemma_listed_push(ts, t);
            assert(ts.push(t) =~= ts + gpu_entries(*d));
            assert(w.buf@ =~= b + listed(ts.push(t)));
        }
    } else {
        assert(ts =~= ts + gpu_entries(*d));
    }
}

/// Writes a server, for the snapshot.
pub fn write_server(w: &mut Writer, s: &Server, d: &Sample, public: bool)
    ensures
        final(w).buf@ == old(w).buf@ + server_text(*s, *d, public),
{
    let ghost b0 = w.buf@;
    w.raw("{");
    let ghost b = w.buf@;
    let ghost mut ts: Seq<Seq<char>> = seq![];
    assert(b + listed(ts) =~= b);
    w.str_entry(Ghost(b), Ghost(ts), true, "name", s.name.as_str());
    proof {
        ts = ts.push(entry("name"@, quoted(s.name@)));
    }
    w.str_entry(Ghost(b), Ghost(ts), false, "gpu_model", s.gpu_model.as_str());
    proof {
        ts = ts.push(entry("gpu_model"@, quoted(s.gpu_model@)));
    }
    w.num_entry(Ghost(b), Ghost(ts), false, "n_gpu_expected", Double::from_u64(s.n_gpu as u64));
    proof {
        ts = ts.push(entry("n_gpu_expected"@, num_text(whole(s.n_gpu as int))));
    }
    w.str_entry(Ghost(b), Ghost(ts), false, "loc", s.loc.as_str());
    proof {
        ts = ts.push(entry("loc"@, quoted(s.loc@)));
    }
    w.num_entry(Ghost(b), Ghost(ts), false, "ts", Double::from_u64(d.ts));
    proof {
        ts = ts.push(entry("ts"@, num_text(whole(d.ts as int))));
    }
    w.str_entry(Ghost(b), Ghost(ts), false, "status", d.status.as_str());
    proof {
        ts = ts.push(entry("status"@, quoted(status_name(d.status))));
        assert(ts =~= seq![
            entry("name"@, quoted(s.name@)),
            entry("gpu_model"@, quoted(s.gpu_model@)),
            entry("n_gpu_expected"@, num_text(whole(s.n_gpu as int))),
            entry("loc"@, quoted(s.loc@)),
            entry("ts"@, num_text(whole(d.ts as int))),
            entry("status"@, quoted(status_name(d.status))),
        ]);
    }
    write_address(w, Ghost(b), Ghost(ts), s, public);
    proof {
        ts = ts + address_entries(*s, public);
    }
    write_error(w, Ghost(b), Ghost(ts), d, public);
    proof {
        ts = ts + error_entries(*d, public);
    }
    write_host(w, Ghost(b), Ghost(ts), &d.host);
    proof {
        ts = ts + host_entries(d.host);
    }
    write_power(w, Ghost(b), Ghost(ts), d);
    proof {
        ts = ts + power_entries(*d);
    }
    write_cards(w, Ghost(b), Ghost(ts), d);
    proof {
        ts = ts + gpu_entries(*d);
    }
    w.raw("}");
    proof {
        reveal_strlit("{");
        reveal_strlit("}");
        assert(w.buf@ =~= b0 + object_text(ts));
    }
}

/// The sample of the server called `name`, where there is one.
pub open spec fn sample_of(samples: Seq<(Seq<char>, Sample)>, name: Seq<char>) -> Option<Sample> {
    lookup(samples, name)
}

/// Whether a server is up.
pub open spec fn is_up(d: Option<Sample>) -> bool {
    d matches Some(d) && d.status == Status::Up
}

/// The number of busy cards among the first `n`.
pub open spec fn busy_count(gpus: Seq<Gpu>, n: int) -> nat
    decreases n,
{
    if n <= 0 {
        0
    } else {
        busy_count(gpus, n - 1) + if is_busy(gpus[n - 1]) {
            1nat
        } else {
            0
        }
    }
}

/// The number of servers that are up among the first `n`.
pub open spec fn up_count(order: Seq<&Server>, samples: Seq<(Seq<char>, Sample)>, n: int) -> nat
    decreases n,
{
    if n <= 0 {
        0
    } else {
        up_count(order, samples, n - 1) + if is_up(sample_of(samples, order[n - 1].name@)) {
            1nat
        } else {
            0
        }
    }
}

/// The number of cards of the servers that are up among the first `n`.
pub open spec fn gpu_count(order: Seq<&Server>, samples: Seq<(Seq<char>, Sample)>, n: int) -> nat
    decreases n,
{
    if n <= 0 {
        0
    } else {
        let d = sample_of(samples, order[n - 1].name@);
        gpu_count(order, samples, n - 1) + if is_up(d) {
            d->Some_0.gpus@.len()
        } else {
            0
        }
    }
}

/// The number of busy cards of the servers that are up among the first `n`.
pub open spec fn gpu_busy_count(
    order: Seq<&Server>,
    samples: Seq<(Seq<char>, Sample)>,
    n: int,
) -> nat
    decreases n,
{
    if n <= 0 {
        0
    } else {
        let d = sample_of(samples, order[n - 1].name@);
        gpu_busy_count(order, samples, n - 1) + if is_up(d) {
            busy_count(d->Some_0.gpus@, d->Some_0.gpus@.len() as int)
        } else {
            0
        }
    }
}

/// When the oldest sample of the first `n` servers was taken; zero where there is none.
pub open spec fn oldest_ts(order: Seq<&Server>, samples: Seq<(Seq<char>, Sample)>, n: int) -> u64
    decreases n,
{
    if n <= 0 {
        0
    } else {
        let o = oldest_ts(order, samples, n - 1);
        match sample_of(samples, order[n - 1].name@) {
            Some(d) => if d.ts > 0 && (o == 0 || d.ts < o) {
                d.ts
            } else {
                o
            },
            None => o,
        }
    }
}

/// A rack, for the snapshot.
pub open spec fn rack_text(r: Rack) -> Seq<char> {
    object_text(
        seq![
            entry("room"@, quoted(r.room@)),
            entry("short"@, quoted(r.short@)),
            entry("slots"@, array_text(r.slots@.map_values(|s: String| quoted(s@)))),
        ],
    )
}

/// The counts over all servers, for the snapshot.
pub open spec fn summary_text(order: Seq<&Server>, samples: Seq<(Seq<char>, Sample)>) -> Seq<char> {
    let n = order.len() as int;
    let total = gpu_count(order, samples, n);
    let busy = gpu_busy_count(order, samples, n);
    object_text(
        seq![
            entry("servers_total"@, num_text(whole(n))),
            entry("servers_up"@, num_text(whole(up_count(order, samples, n) as int))),
            entry("gpus_total"@, num_text(whole(total as int))),
            entry("gpus_busy"@, num_text(whole(busy as int))),
            entry("gpus_free"@, num_text(whole(total - busy))),
        ],
    )
}

/// A server that has reported nothing, for the snapshot.
pub open spec fn pending_text(s: Server, public: bool) -> Seq<char> {
    object_text(
        seq![
            entry("name"@, quoted(s.name@)),
            entry("gpu_model"@, quoted(s.gpu_model@)),
            entry("n_gpu_expected"@, num_text(whole(s.n_gpu as int))),
            entry("loc"@, quoted(s.loc@)),
            entry("ts"@, num_text(whole(0))),
            entry("status"@, quoted(status_name(Status::Pending))),
        ] + address_entries(s, public) + seq![entry("error"@, quoted("연결 중"@))],
    )
}

/// A server with the sample it has, for the snapshot.
pub open spec fn listed_server(
    s: Server,
    samples: Seq<(Seq<char>, Sample)>,
    public: bool,
) -> Seq<char> {
    match sample_of(samples, s.name@) {
        Some(d) => server_text(s, d, public),
        None => pending_text(s, public),
    }
}

/// The snapshot, as the dashboard reads it.
pub open spec fn snapshot(
    racks: Seq<Rack>,
    order: Seq<&Server>,
    samples: Seq<(Seq<char>, Sample)>,
    public: bool,
) -> Seq<char> {
    object_text(
        seq![
            entry("generated_at"@, num_text(whole(oldest_ts(order, samples, order.len() as int) as int))),
            entry("poll_interval_sec"@, num_text(whole(1))),
            entry("racks"@, array_text(racks.map_values(|r: Rack| rack_text(r)))),
            entry("summary"@, summary_text(order, samples)),
            entry(
                "servers"@,
                array_text(order.map_values(|s: &Server| listed_server(*s, samples, public))),
            ),
        ] + if public {
            seq![entry("redacted"@, "true"@)]
        } else {
            seq![]
        },
    )
}

/// The number of busy cards.
pub fn count_busy(gpus: &[Gpu]) -> (r: usize)
    ensures
        r == busy_count(gpus@, gpus@.len() as int),
        r <= gpus@.len(),
{
    let mut n: usize = 0;
    let mut i: usize = 0;
    while i < gpus.len()
        invariant
            i <= gpus@.len(),
            n == busy_count(gpus@, i as int),
            n <= i,
        decreases gpus@.len() - i,
    {
        if gpu_is_busy(&gpus[i]) {
            n = n + 1;
        }
        i = i + 1;
    }
    n
}

/// The counts over the servers.
struct Totals {
    up: usize,
    total: u128,
    busy: u128,
    oldest: u64,
}

fn count(order: &[&Server], samples: &Table<Sample>) -> (r: Totals)
    ensures
        r.up == up_count(order@, samples@, order@.len() as int),
        r.total == gpu_count(order@, samples@, order@.len() as int),
        r.busy == gpu_busy_count(order@, samples@, order@.len() as int),
        r.busy <= r.total,
        r.oldest == oldest_ts(order@, samples@, order@.len() as int),
{
    let mut t = Totals { up: 0, total: 0, busy: 0, oldest: 0 };
    let mut i: usize = 0;
    while i < order.len()
        invariant
            i <= order@.len(),
            t.up <= i,
            t.up == up_count(order@, samples@, i as int),
            t.total == gpu_count(order@, samples@, i as int),
            t.busy == gpu_busy_count(order@, samples@, i as int),
            t.busy <= t.total <= i * 0xffff_ffff_ffff_ffff,
            t.oldest == oldest_ts(order@, samples@, i as int),
        decreases order@.len() - i,
    {
        if let Some(d) = samples.get(order[i].name.as_str()) {
            if d.status == Status::Up {
                let n: usize = d.gpus.len();
                t.up = t.up + 1;
                assert(i * 0xffff_ffff_ffff_ffff + 0xffff_ffff_ffff_ffff
                    <= 0xffff_ffff_ffff_ffff * 0xffff_ffff_ffff_ffff) by (nonlinear_arith)
                    requires
                        i < 0xffff_ffff_ffff_ffff,
                ;
                t.total = t.total + n as u128;
                t.busy = t.busy + count_busy(d.gpus.as_slice()) as u128;
            }
            if d.ts > 0 && (t.oldest == 0 || d.ts < t.oldest) {
                t.oldest = d.ts;
            }
        }
        i = i + 1;
    }
    t
}

fn write_slots(w: &mut Writer, slots: &Vec<String>)
    ensures
        final(w).buf@ == old(w).buf@ + array_text(slots@.map_values(|s: String| quoted(s@))),
{
    let ghost b0 = w.buf@;
    let ghost all = slots@.map_values(|s: String| quoted(s@));
    w.raw("[");
    let ghost b = w.buf@;
    let mut i: usize = 0;
    assert(b + listed(all.take(0)) =~= b);
    while i < slots.len()
        invariant
            i <= slots@.len(),
            all == slots@.map_values(|s: String| quoted(s@)),
            w.buf@ == b + listed(all.take(i as int)),
        decreases slots@.len() - i,
    {
        let ghost ts = all.take(i as int);
        w.comma(i == 0);
        w.str(slots[i].as_str());
        proof {
            let t = quoted(slots@[i as int]@);
            lemma_listed_push(ts, t);
            assert(all.take(i + 1) =~= ts.push(t));
            assert(w.buf@ =~= b + listed(ts.push(t)));
        }
        i = i + 1;
    }
    w.raw("]");
    proof {
        reveal_strlit("[");
        reveal_strlit("]");
        assert(all.take(all.len() as int) =~= all);
        assert(w.buf@ =~= b0 + array_text(all));
    }
}

fn write_rack(w: &mut Writer, r: &Rack)
    ensures
        final(w).buf@ == old(w).buf@ + rack_text(*r),
{
    let ghost b0 = w.buf@;
    w.raw("{");
    let ghost b = w.buf@;
    let ghost none: Seq<Seq<char>> = seq![];
    let ghost room = entry("room"@, quoted(r.room@));
    let ghost short = entry("short"@, quoted(r.short@));
    assert(b + listed(none) =~= b);
    w.str_entry(Ghost(b), Ghost(none), true, "room", r.room.as_str());
    w.str_entry(Ghost(b), Ghost(none.push(room)), false, "short", r.short.as_str());
    w.comma(false);
    w.key("slots");
    write_slots(w, &r.slots);
    w.raw("}");
    proof {
        reveal_strlit("{");
        reveal_strlit("}");
        let t = entry("slots"@, array_text(r.slots@.map_values(|s: String| quoted(s@))));
        let ts = none.push(room).push(short);
        lemma_listed_push(ts, t);
        assert(ts.push(t) =~= seq![room, short, t]);
        assert(w.buf@ =~= b0 + object_text(seq![room, short, t]));
    }
}

fn write_racks(w: &mut Writer, racks: &Vec<Rack>)
    ensures
        final(w).buf@ == old(w).buf@ + array_text(racks@.map_values(|r: Rack| rack_text(r))),
{
    let ghost b0 = w.buf@;
    let ghost all = racks@.map_values(|r: Rack| rack_text(r));
    w.raw("[");
    let ghost b = w.buf@;
    let mut i: usize = 0;
    assert(b + listed(all.take(0)) =~= b);
    while i < racks.len()
        invariant
            i <= racks@.len(),
            all == racks@.map_values(|r: Rack| rack_text(r)),
            w.buf@ == b + listed(all.take(i as int)),
        decreases racks@.len() - i,
    {
        let ghost ts = all.take(i as int);
        w.comma(i == 0);
        write_rack(w, &racks[i]);
        proof {
            let t = rack_text(racks@[i as int]);
            lemma_listed_push(ts, t);
            assert(all.take(i + 1) =~= ts.push(t));
            assert(w.buf@ =~= b + listed(ts.push(t)));
        }
        i = i + 1;
    }
    w.raw("]");
    proof {
        reveal_strlit("[");
        reveal_strlit("]");
        assert(all.take(all.len() as int) =~= all);
        assert(w.buf@ =~= b0 + array_text(all));
    }
}

fn write_summary(w: &mut Writer, order: &[&Server], samples: &Table<Sample>, t: &Totals)
    requires
        t.up == up_count(order@, samples@, order@.len() as int),
        t.total == gpu_count(order@, samples@, order@.len() as int),
        t.busy == gpu_busy_count(order@, samples@, order@.len() as int),
        t.busy <= t.total,
    ensures
        final(w).buf@ == old(w).buf@ + summary_text(order@, samples@),
{
    let ghost b0 = w.buf@;
    w.raw("{");
    let ghost b = w.buf@;
    let ghost mut ts: Seq<Seq<char>> = seq![];
    assert(b + listed(ts) =~= b);
    w.num_entry(Ghost(b), Ghost(ts), true, "servers_total", Double::from_u64(order.len() as u64));
    proof {
        ts = ts.push(entry("servers_total"@, num_text(whole(order@.len() as int))));
    }
    w.num_entry(Ghost(b), Ghost(ts), false, "servers_up", Double::from_u64(t.up as u64));
    proof {
        ts = ts.push(entry("servers_up"@, num_text(whole(t.up as int))));
    }
    w.num_entry(Ghost(b), Ghost(ts), false, "gpus_total", Double::from_u128(t.total));
    proof {
        ts = ts.push(entry("gpus_total"@, num_text(whole(t.total as int))));
    }
    w.num_entry(Ghost(b), Ghost(ts), false, "gpus_busy", Double::from_u128(t.busy));
    proof {
        ts = ts.push(entry("gpus_busy"@, num_text(whole(t.busy as int))));
    }
    w.num_entry(Ghost(b), Ghost(ts), false, "gpus_free", Double::from_u128(t.total - t.busy));
    proof {
        ts = ts.push(entry("gpus_free"@, num_text(whole(t.total - t.busy))));
    }
    w.raw("}");
    proof {
        reveal_strlit("{");
        reveal_strlit("}");
        assert(ts =~= seq![
            entry("servers_total"@, num_text(whole(order@.len() as int))),
            entry("servers_up"@, num_text(whole(t.up as int))),
            entry("gpus_total"@, num_text(whole(t.total as int))),
            entry("gpus_busy"@, num_text(whole(t.busy as int))),
            entry("gpus_free"@, num_text(whole(t.total - t.busy))),
        ]);
        assert(w.buf@ =~= b0 + object_text(ts));
    }
}

proof fn lemma_blank_text(s: Server, d: Sample, public: bool)
    requires
        is_blank(d),
    ensures
        server_text(s, d, public) == pending_text(s, public),
{
    let head = seq![
        entry("name"@, quoted(s.name@)),
        entry("gpu_model"@, quoted(s.gpu_model@)),
        entry("n_gpu_expected"@, num_text(whole(s.n_gpu as int))),
        entry("loc"@, quoted(s.loc@)),
        entry("ts"@, num_text(whole(d.ts as int))),
        entry("status"@, quoted(status_name(d.status))),
    ];
    let e = seq![entry("error"@, quoted("연결 중"@))];
    let a = address_entries(s, public);
    assert(error_entries(d, public) =~= e);
    assert(host_entries(d.host) =~= seq![]);
    assert(power_entries(d) =~= seq![]);
    assert(gpu_entries(d) =~= seq![]);
    assert(head + a + e + seq![] + seq![] + seq![] =~= head + a + e);
}

fn write_servers(w: &mut Writer, order: &[&Server], samples: &Table<Sample>, public: bool)
    ensures
        final(w).buf@ == old(w).buf@ + array_text(
            order@.map_values(|s: &Server| listed_server(*s, samples@, public)),
        ),
{
    let ghost b0 = w.buf@;
    let ghost all = order@.map_values(|s: &Server| listed_server(*s, samples@, public));
    w.raw("[");
    let ghost b = w.buf@;
    let mut i: usize = 0;
    assert(b + listed(all.take(0)) =~= b);
    while i < order.len()
        invariant
            i <= order@.len(),
            all == order@.map_values(|s: &Server| listed_server(*s, samples@, public)),
            w.buf@ == b + listed(all.take(i as int)),
        decreases order@.len() - i,
    {
        let ghost ts = all.take(i as int);
        w.comma(i == 0);
        match samples.get(order[i].name.as_str()) {
            Some(d) => write_server(w, order[i], d, public),
            None => {
                let d = Sample::default();
                write_server(w, order[i], &d, public);
                proof {
                    lemma_blank_text(*order@[i as int], d, public);
                }
            },
        }
        proof {
            let t = listed_server(*order@[i as int], samples@, public);
            lemma_listed_push(ts, t);
            assert(all.take(i + 1) =~= ts.push(t));
            assert(w.buf@ =~= b + listed(ts.push(t)));
        }
        i = i + 1;
    }
    w.raw("]");
    proof {
        reveal_strlit("[");
        reveal_strlit("]");
        assert(all.take(all.len() as int) =~= all);
        assert(w.buf@ =~= b0 + array_text(all));
    }
}

/// The snapshot, as the dashboard reads it.
///
/// The public one has nothing that identifies the network or a person: those bytes are never
/// written.
pub fn write_snapshot(
    cfg: &Config,
    order: &[&Server],
    samples: &Table<Sample>,
    public: bool,
) -> (r: String)
    ensures
        r@ == snapshot(cfg.racks@, order@, samples@, public),
{
    let t = count(order, samples);
    let mut w = Writer::new();
    w.raw("{");
    let ghost b = w.buf@;
    let ghost mut ts: Seq<Seq<char>> = seq![];
    assert(b + listed(ts) =~= b);
    w.num_entry(Ghost(b), Ghost(ts), true, "generated_at", Double::from_u64(t.oldest));
    proof {
        ts = ts.push(entry("generated_at"@, num_text(whole(t.oldest as int))));
    }
    w.num_entry(Ghost(b), Ghost(ts), false, "poll_interval_sec", Double::from_u64(1));
    proof {
        ts = ts.push(entry("poll_interval_sec"@, num_text(whole(1))));
    }
    w.comma(false);
    w.key("racks");
    write_racks(&mut w, &cfg.racks);
    proof {
        let x = array_text(cfg.racks@.map_values(|r: Rack| rack_text(r)));
        lemma_entry(b, ts, "racks"@, x);
        ts = ts.push(entry("racks"@, x));
    }
    w.comma(false);
    w.key("summary");
    write_summary(&mut w, order, samples, &t);
    proof {
        let x = summary_text(order@, samples@);
        lemma_entry(b, ts, "summary"@, x);
        ts = ts.push(entry("summary"@, x));
    }
    w.comma(false);
    w.key("servers");
    write_servers(&mut w, order, samples, public);
    let ghost head = seq![
        entry("generated_at"@, num_text(whole(t.oldest as int))),
        entry("poll_interval_sec"@, num_text(whole(1))),
        entry("racks"@, array_text(cfg.racks@.map_values(|r: Rack| rack_text(r)))),
        entry("summary"@, summary_text(order@, samples@)),
        entry(
            "servers"@,
            array_text(order@.map_values(|s: &Server| listed_server(*s, samples@, public))),
        ),
    ];
    proof {
        let x = array_text(order@.map_values(|s: &Server| listed_server(*s, samples@, public)));
        lemma_entry(b, ts, "servers"@, x);
        ts = ts.push(entry("servers"@, x));
        assert(ts =~= head);
    }
    if public {
        w.comma(false);
        w.key("redacted");
        w.raw("true");
        proof {
            lemma_entry(b, ts, "redacted"@, "true"@);
            ts = ts.push(entry("redacted"@, "true"@));
            assert(ts =~= head + seq![entry("redacted"@, "true"@)]);
        }
    } else {
        assert(head + seq![] =~= head);
    }
    w.raw("}");
    proof {
        reveal_strlit("{");
        reveal_strlit("}");
        assert(w.buf@ =~= object_text(ts));
    }
    w.buf
}

/// Whether two servers agree in what may be public. They may differ in their host, port,
/// identity and note, and in whether they are enabled or pinned.
pub open spec fn same_public_server(a: Server, b: Server) -> bool {
    &&& a.name@ == b.name@
    &&& a.gpu_model@ == b.gpu_model@
    &&& a.n_gpu == b.n_gpu
    &&& a.loc@ == b.loc@
}

/// Whether two samples agree in what may be public. They may differ in their error.
pub open spec fn same_public_sample(a: Sample, b: Sample) -> bool {
    &&& a.status == b.status
    &&& a.ts == b.ts
    &&& a.gpus == b.gpus
    &&& a.host == b.host
    &&& a.watts == b.watts
    &&& a.watt_history == b.watt_history
}

/// Whether two lists of servers agree in what may be public.
pub open spec fn same_public_order(a: Seq<&Server>, b: Seq<&Server>) -> bool {
    &&& a.len() == b.len()
    &&& forall|i: int| 0 <= i < a.len() ==> same_public_server(*#[trigger] a[i], *b[i])
}

/// Whether two tables of samples agree in what may be public.
pub open spec fn same_public_samples(
    a: Seq<(Seq<char>, Sample)>,
    b: Seq<(Seq<char>, Sample)>,
) -> bool {
    &&& a.len() == b.len()
    &&& forall|i: int|
        0 <= i < a.len() ==> (#[trigger] a[i]).0 == b[i].0 && same_public_sample(a[i].1, b[i].1)
}

proof fn lemma_public_lookup(
    a: Seq<(Seq<char>, Sample)>,
    b: Seq<(Seq<char>, Sample)>,
    k: Seq<char>,
)
    requires
        same_public_samples(a, b),
    ensures
        match (sample_of(a, k), sample_of(b, k)) {
            (Some(x), Some(y)) => same_public_sample(x, y),
            (None, None) => true,
            _ => false,
        },
    decreases a.len(),
{
    if a.len() > 0 {
        let x = a.skip(1);
        let y = b.skip(1);
        assert(a[0].0 == b[0].0);
        assert forall|i: int| 0 <= i < x.len() implies (#[trigger] x[i]).0 == y[i].0
            && same_public_sample(x[i].1, y[i].1) by {
            assert(x[i] == a[i + 1]);
        }
        lemma_public_lookup(x, y, k);
    }
}

proof fn lemma_public_counts(
    a: Seq<&Server>,
    b: Seq<&Server>,
    s: Seq<(Seq<char>, Sample)>,
    t: Seq<(Seq<char>, Sample)>,
    n: int,
)
    requires
        same_public_order(a, b),
        same_public_samples(s, t),
        n <= a.len(),
    ensures
        up_count(a, s, n) == up_count(b, t, n),
        gpu_count(a, s, n) == gpu_count(b, t, n),
        gpu_busy_count(a, s, n) == gpu_busy_count(b, t, n),
        oldest_ts(a, s, n) == oldest_ts(b, t, n),
    decreases n,
{
    if n > 0 {
        lemma_public_counts(a, b, s, t, n - 1);
        assert(same_public_server(*a[n - 1], *b[n - 1]));
        lemma_public_lookup(s, t, a[n - 1].name@);
    }
}

/// The public snapshot does not depend on a host, a port, an identity, a note or an error:
/// configurations and samples that differ in nothing else give the same bytes.
pub proof fn lemma_public_snapshot_redacted(
    racks: Seq<Rack>,
    a: Seq<&Server>,
    b: Seq<&Server>,
    s: Seq<(Seq<char>, Sample)>,
    t: Seq<(Seq<char>, Sample)>,
)
    requires
        same_public_order(a, b),
        same_public_samples(s, t),
    ensures
        snapshot(racks, a, s, true) == snapshot(racks, b, t, true),
{
    lemma_public_counts(a, b, s, t, a.len() as int);
    let x = a.map_values(|v: &Server| listed_server(*v, s, true));
    let y = b.map_values(|v: &Server| listed_server(*v, t, true));
    assert forall|i: int| 0 <= i < x.len() implies #[trigger] x[i] == y[i] by {
        assert(same_public_server(*a[i], *b[i]));
        lemma_public_lookup(s, t, a[i].name@);
    }
    assert(x =~= y);
}

// ---------------------------------------------------------------- the order of servers

/// The digits in a text.
pub open spec fn digits_in(s: Seq<char>) -> Seq<char>
    decreases s.len(),
{
    if s.len() == 0 {
        seq![]
    } else if is_digit(s.last()) {
        digits_in(s.drop_last()).push(s.last())
    } else {
        digits_in(s.drop_last())
    }
}

/// The number in a server's name; zero where there is none, or none of 32 bits.
pub open spec fn name_number(s: Seq<char>) -> nat {
    let n = number(digits_in(s));
    if n > u32::MAX {
        0
    } else {
        n
    }
}

/// Whether the server called `a` is listed before the one called `b`: by their numbers, then
/// by their names.
pub open spec fn listed_before(a: Seq<char>, b: Seq<char>) -> bool {
    name_number(a) < name_number(b) || (name_number(a) == name_number(b) && before(a, b))
}

/// What a server is listed by: the number in its name, then the name. `hi9` is before `hi14`.
pub fn sort_key(name: &str) -> (r: (u32, String))
    ensures
        r.0 == name_number(name@),
        r.1@ == name@,
{
    let v = chars_of(name);
    let mut n: u64 = 0;
    let mut over: bool = false;
    let mut i: usize = 0;
    assert(name@.take(0) =~= seq![]);
    while i < v.len()
        invariant
            i <= v@.len(),
            v@ == name@,
            over == (number(digits_in(name@.take(i as int))) > u32::MAX),
            !over ==> n == number(digits_in(name@.take(i as int))),
        decreases v@.len() - i,
    {
        let c: char = v[i];
        proof {
            let t = name@.take(i + 1);
            assert(t.drop_last() =~= name@.take(i as int));
            let d = digits_in(name@.take(i as int));
            assert(d.push(c).drop_last() =~= d);
        }
        if decimal(c) && !over {
            n = n * 10 + (c as u32 - 48) as u64;
            if n > 0xffff_ffff {
                over = true;
            }
        }
        i = i + 1;
    }
    proof {
        assert(name@.take(name@.len() as int) =~= name@);
    }
    let k: u32 = if over {
        0
    } else {
        n as u32
    };
    (k, own(name))
}

fn name_before(a: &str, b: &str) -> (r: bool)
    ensures
        r == listed_before(a@, b@),
{
    let x: u32 = sort_key(a).0;
    let y: u32 = sort_key(b).0;
    x < y || (x == y && str_before(a, b))
}

/// Whether `p` lists the enabled servers in their order: by their names' numbers, then by
/// their names, and where the names agree as they stand in the configuration.
pub open spec fn is_active_order(servers: Seq<Server>, p: Seq<int>) -> bool {
    &&& forall|i: int|
        0 <= i < p.len() ==> 0 <= #[trigger] p[i] < servers.len() && servers[p[i]].enabled
    &&& forall|k: int|
        0 <= k < servers.len() && (#[trigger] servers[k]).enabled ==> p.contains(k)
    &&& forall|i: int, j: int|
        0 <= i < j < p.len() ==> #[trigger] in_order(servers, p[i], #[trigger] p[j])
}

/// Whether the server at `a` is listed before the one at `b`.
pub open spec fn in_order(servers: Seq<Server>, a: int, b: int) -> bool {
    let x = servers[a].name@;
    let y = servers[b].name@;
    listed_before(x, y) || (x == y && a < b)
}

proof fn lemma_in_order_transitive(servers: Seq<Server>, a: int, b: int, c: int)
    requires
        in_order(servers, a, b),
        in_order(servers, b, c),
    ensures
        in_order(servers, a, c),
{
    let x = servers[a].name@;
    let y = servers[b].name@;
    let z = servers[c].name@;
    if before(x, y) && before(y, z) {
        lemma_before_transitive(x, y, z);
    }
}

impl Config {
    /// The enabled servers, in the order in which they are listed.
    pub fn active(&self) -> (r: Vec<&Server>)
        ensures
            exists|p: Seq<int>| #[trigger]
                is_active_order(self.servers@, p) && r@.len() == p.len() && forall|i: int|
                    0 <= i < p.len() ==> *#[trigger] r@[i] == self.servers@[p[i]],
    {
        let mut r: Vec<&Server> = Vec::new();
        let ghost mut p: Seq<int> = seq![];
        let mut k: usize = 0;
        while k < self.servers.len()
            invariant
                k <= self.servers@.len(),
                r@.len() == p.len(),
                forall|i: int| 0 <= i < p.len() ==> *#[trigger] r@[i] == self.servers@[p[i]],
                is_active_order(self.servers@.take(k as int), p),
            decreases self.servers@.len() - k,
        {
            let ghost sv = self.servers@;
            let ghost cut = sv.take(k as int);
            let ghost more = sv.take(k + 1);
            proof {
                assert forall|i: int| 0 <= i < p.len() implies 0 <= #[trigger] p[i] < more.len()
                    && more[p[i]].enabled by {
                    assert(cut[p[i]] == more[p[i]]);
                }
                assert forall|i: int, j: int| 0 <= i < j < p.len() implies #[trigger] in_order(
                    more,
                    p[i],
                    #[trigger] p[j],
                ) by {
                    assert(in_order(cut, p[i], p[j]));
                    assert(cut[p[i]] == more[p[i]] && cut[p[j]] == more[p[j]]);
                }
            }
            if self.servers[k].enabled {
                let mut at: usize = r.len();
                while at > 0 && name_before(
                    self.servers[k].name.as_str(),
                    r[at - 1].name.as_str(),
                )
                    invariant
                        k < self.servers@.len(),
                        at <= r@.len(),
                        r@.len() == p.len(),
                        more == self.servers@.take(k + 1),
                        forall|i: int| 0 <= i < p.len() ==> 0 <= #[trigger] p[i] < k,
                        forall|i: int| 0 <= i < p.len() ==> *#[trigger] r@[i] == self.servers@[p[i]],
                        forall|i: int| at <= i < p.len() ==> #[trigger] in_order(more, k as int, p[i]),
                    decreases at,
                {
                    at = at - 1;
                }
                let ghost q = p.insert(at as int, k as int);
                proof {
                    assert forall|i: int| 0 <= i < q.len() implies 0 <= #[trigger] q[i]
                        < more.len() && more[q[i]].enabled by {
                        if i < at {
                            assert(q[i] == p[i]);
                        } else if i > at {
                            assert(q[i] == p[i - 1]);
                        }
                    }
                    assert forall|j: int| 0 <= j < more.len() && (
                    #[trigger] more[j]).enabled implies q.contains(j) by {
                        if j < k {
                            assert(cut[j] == more[j]);
                            assert(p.contains(j));
                            let i = choose|i: int| 0 <= i < p.len() && p[i] == j;
                            if i < at {
                                assert(q[i] == j);
                            } else {
                                assert(q[i + 1] == j);
                            }
                        } else {
                            assert(q[at as int] == k);
                        }
                    }
                    if at > 0 {
                        let a = more[p[at - 1]].name@;
                        let b = more[k as int].name@;
                        assert(!listed_before(b, a));
                        lemma_before_total(a, b);
                        assert(in_order(more, p[at - 1], k as int));
                    }
                    assert forall|i: int, j: int| 0 <= i < j < q.len() implies #[trigger] in_order(
                        more,
                        q[i],
                        #[trigger] q[j],
                    ) by {
                        if j < at {
                            assert(q[i] == p[i] && q[j] == p[j]);
                        } else if j == at {
                            assert(q[i] == p[i]);
                            if i < at - 1 {
                                assert(in_order(more, p[i], p[at - 1]));
                                lemma_in_order_transitive(more, p[i], p[at - 1], k as int);
                            }
                        } else if i < at {
                            assert(q[i] == p[i] && q[j] == p[j - 1]);
                        } else if i == at {
                            assert(q[j] == p[j - 1]);
                        } else {
                            assert(q[i] == p[i - 1] && q[j] == p[j - 1]);
                        }
                    }
                }
                r.insert(at, &self.servers[k]);
                proof {
                    assert forall|i: int| 0 <= i < q.len() implies *#[trigger] r@[i]
                        == self.servers@[q[i]] by {
                        if i < at {
                            assert(q[i] == p[i]);
                        } else if i > at {
                            assert(q[i] == p[i - 1]);
                        }
                    }
                    p = q;
                }
            } else {
                proof {
                    assert forall|j: int| 0 <= j < more.len() && (
                    #[trigger] more[j]).enabled implies p.contains(j) by {
                        assert(cut[j] == more[j]);
                    }
                }
            }
            k = k + 1;
        }
        proof {
            assert(self.servers@.take(k as int) =~= self.servers@);
        }
        r
    }
}

// ---------------------------------------------------------------- the configuration

/// The elements of the array member `k`; none where there is no such array.
pub open spec fn array_member(j: Json, k: Seq<char>) -> Seq<Json> {
    match member(j, k) {
        Some(Json::Arr(a)) => a,
        _ => seq![],
    }
}

/// The texts among the elements of an array.
pub open spec fn texts_in(a: Seq<Json>) -> Seq<Seq<char>>
    decreases a.len(),
{
    if a.len() == 0 {
        seq![]
    } else {
        match a.last() {
            Json::Str(t) => texts_in(a.drop_last()).push(t),
            _ => texts_in(a.drop_last()),
        }
    }
}

/// Whether a text has only what an address in digits has.
pub open spec fn is_address(t: Seq<char>) -> bool {
    forall|i: int| 0 <= i < t.len() ==> is_digit(#[trigger] t[i]) || t[i] == '.' || t[i] == ':'
}

/// Whether a server's address is pinned and yet is a name.
pub open spec fn pinned_to_name(j: Json) -> bool {
    bool_member(j, "pin_address"@, false) && !is_address(text_member(j, "host"@, ""@))
}

/// The message that a server's address is pinned and yet is a name.
pub open spec fn pinned_message(j: Json) -> Seq<char> {
    text_member(j, "name"@, ""@) + ": host "@ + str_debug(text_member(j, "host"@, ""@))
        + " is pinned to a literal IP but looks like a hostname.\n  "@ + text_member(
        j,
        "note"@,
        ""@,
    )
}

/// Whether `s` is the server that `j` describes.
pub open spec fn is_server(s: Server, j: Json) -> bool {
    &&& s.name@ == text_member(j, "name"@, ""@)
    &&& s.host@ == text_member(j, "host"@, ""@)
    &&& s.port == saturated(num_member(j, "port"@, whole(22)), 0, u16::MAX as int)
    &&& s.gpu_model@ == text_member(j, "gpu"@, ""@)
    &&& s.n_gpu == saturated(num_member(j, "n_gpu"@, whole(0)), 0, usize::MAX as int)
    &&& s.loc@ == text_member(j, "loc"@, ""@)
    &&& match member(j, "identity"@) {
        Some(Json::Str(t)) => s.identity matches Some(i) && i@ == t,
        _ => s.identity is None,
    }
    &&& s.enabled == bool_member(j, "enabled"@, true)
    &&& s.pin_address == bool_member(j, "pin_address"@, false)
    &&& s.note@ == text_member(j, "note"@, ""@)
}

/// Whether `r` is the rack that `j` describes.
pub open spec fn is_rack(r: Rack, j: Json) -> bool {
    &&& r.room@ == text_member(j, "room"@, ""@)
    &&& r.short@ == text_member(j, "short"@, ""@)
    &&& r.slots@.map_values(|s: String| s@) == texts_in(array_member(j, "slots"@))
}

/// Whether `c` is the configuration that `j` describes.
pub open spec fn is_config(c: Config, j: Json) -> bool {
    let servers = array_member(j, "servers"@);
    let racks = array_member(j, "racks"@);
    &&& c.ssh_user@ == text_member(j, "ssh_user"@, "sukim"@)
    &&& c.public_mode == bool_member(j, "public_mode"@, true)
    &&& c.min_gap == num_member(j, "min_ssh_interval_sec"@, dec(DEFAULT_MIN_GAP as nat, -1))
    &&& c.window == num_member(j, "ssh_rate_window_sec"@, whole(DEFAULT_WINDOW as int))
    &&& c.max_per_window == saturated(
        num_member(j, "ssh_max_per_window"@, whole(DEFAULT_MAX_PER_WINDOW as int)),
        0,
        usize::MAX as int,
    )
    &&& c.connect_timeout == saturated(
        num_member(j, "ssh_connect_timeout"@, whole(6)),
        0,
        u64::MAX as int,
    )
    &&& c.power_points == saturated(
        num_member(j, "power_history_points"@, whole(120)),
        0,
        usize::MAX as int,
    )
    &&& c.power_log == bool_member(j, "power_log"@, true)
    &&& c.stats_period == saturated(
        num_member(j, "stats_period_sec"@, whole(10)),
        0,
        u32::MAX as int,
    )
    &&& c.stats_keep_days == saturated(
        num_member(j, "stats_keep_days"@, whole(365)),
        i64::MIN as int,
        i64::MAX as int,
    )
    &&& c.servers@.len() == servers.len()
    &&& forall|i: int| 0 <= i < servers.len() ==> is_server(#[trigger] c.servers@[i], servers[i])
    &&& c.racks@.len() == racks.len()
    &&& forall|i: int| 0 <= i < racks.len() ==> is_rack(#[trigger] c.racks@[i], racks[i])
}

/// Whether the server at `i` is the first whose address is pinned and yet is a name.
pub open spec fn first_pinned_to_name(servers: Seq<Json>, i: int) -> bool {
    &&& 0 <= i < servers.len()
    &&& pinned_to_name(servers[i])
    &&& forall|k: int| 0 <= k < i ==> !pinned_to_name(#[trigger] servers[k])
}

fn looks_like_address(t: &str) -> (r: bool)
    ensures
        r == is_address(t@),
{
    let v = chars_of(t);
    let mut i: usize = 0;
    while i < v.len()
        invariant
            i <= v@.len(),
            v@ == t@,
            forall|k: int| 0 <= k < i ==> is_digit(#[trigger] t@[k]) || t@[k] == '.' || t@[k] == ':',
        decreases v@.len() - i,
    {
        let c: char = v[i];
        if !decimal(c) && c != '.' && c != ':' {
            assert(!is_digit(t@[i as int]));
            return false;
        }
        i = i + 1;
    }
    true
}

fn read_server(s: &Value) -> (r: Server)
    ensures
        is_server(r, s@),
{
    let identity: Option<String> = match s.get("identity") {
        Some(v) => match v.as_str() {
            Some(t) => Some(own(t)),
            None => None,
        },
        None => None,
    };
    Server {
        name: own(s.str_or("name", "")),
        host: own(s.str_or("host", "")),
        port: s.num_or("port", Double::from_u64(22)).to_range(0, u16::MAX as i128) as u16,
        gpu_model: own(s.str_or("gpu", "")),
        n_gpu: s.num_or("n_gpu", Double::from_u64(0)).to_range(0, usize::MAX as i128) as usize,
        loc: own(s.str_or("loc", "")),
        identity,
        enabled: s.bool_or("enabled", true),
        pin_address: s.bool_or("pin_address", false),
        note: own(s.str_or("note", "")),
    }
}

fn read_servers(v: &Value) -> (r: Result<Vec<Server>, String>)
    ensures
        ({
            let servers = array_member(v@, "servers"@);
            match r {
                Ok(a) => {
                    &&& a@.len() == servers.len()
                    &&& forall|i: int|
                        0 <= i < servers.len() ==> is_server(#[trigger] a@[i], servers[i])
                            && !pinned_to_name(servers[i])
                },
                Err(e) => exists|i: int| #[trigger]
                    first_pinned_to_name(servers, i) && e@ == pinned_message(servers[i]),
            }
        }),
{
    let ghost servers = array_member(v@, "servers"@);
    let mut out: Vec<Server> = Vec::new();
    let a: &Vec<Value> = match v.get("servers") {
        Some(x) => match x.as_arr() {
            Some(a) => a,
            None => {
                return Ok(out);
            },
        },
        None => {
            return Ok(out);
        },
    };
    assert(servers =~= json(Value::Arr(*a))->Arr_0);
    let mut i: usize = 0;
    while i < a.len()
        invariant
            i <= a@.len(),
            servers == array_member(v@, "servers"@),
            servers == json(Value::Arr(*a))->Arr_0,
            out@.len() == i,
            forall|k: int|
                0 <= k < i ==> is_server(#[trigger] out@[k], servers[k]) && !pinned_to_name(
                    servers[k],
                ),
        decreases a@.len() - i,
    {
        let s = &a[i];
        assert(servers[i as int] == s@);
        // A pinned address that is a name takes the server offline without a word.
        if s.bool_or("pin_address", false) && !looks_like_address(s.str_or("host", "")) {
            let mut e = own(s.str_or("name", ""));
            e.append(": host ");
            e.append(debug_str(s.str_or("host", "")).as_str());
            e.append(" is pinned to a literal IP but looks like a hostname.\n  ");
            e.append(s.str_or("note", ""));
            proof {
                assert forall|k: int| 0 <= k < i implies !pinned_to_name(#[trigger] servers[k]) by {
                    assert(is_server(out@[k], servers[k]));
                }
                assert(first_pinned_to_name(servers, i as int));
            }
            return Err(e);
        }
        out.push(read_server(s));
        i = i + 1;
    }
    Ok(out)
}

fn read_slots(r: &Value) -> (out: Vec<String>)
    ensures
        out@.map_values(|s: String| s@) == texts_in(array_member(r@, "slots"@)),
{
    let ghost slots = array_member(r@, "slots"@);
    let mut out: Vec<String> = Vec::new();
    assert(out@.map_values(|s: String| s@) =~= seq![]);
    let a: &Vec<Value> = match r.get("slots") {
        Some(x) => match x.as_arr() {
            Some(a) => a,
            None => {
                return out;
            },
        },
        None => {
            return out;
        },
    };
    assert(slots =~= json(Value::Arr(*a))->Arr_0);
    let mut i: usize = 0;
    assert(slots.take(0) =~= seq![]);
    while i < a.len()
        invariant
            i <= a@.len(),
            slots == json(Value::Arr(*a))->Arr_0,
            out@.map_values(|s: String| s@) == texts_in(slots.take(i as int)),
        decreases a@.len() - i,
    {
        let ghost before_push = out@;
        proof {
            assert(slots.take(i + 1).drop_last() =~= slots.take(i as int));
            assert(slots.take(i + 1).last() == a@[i as int]@);
        }
        if let Some(t) = a[i].as_str() {
            let o = own(t);
            out.push(o);
            proof {
                assert(out@.map_values(|s: String| s@) =~= before_push.map_values(
                    |s: String| s@,
                ).push(t@));
            }
        }
        i = i + 1;
    }
    proof {
        assert(slots.take(slots.len() as int) =~= slots);
    }
    out
}

fn read_racks(v: &Value) -> (r: Vec<Rack>)
    ensures
        ({
            let racks = array_member(v@, "racks"@);
            &&& r@.len() == racks.len()
            &&& forall|i: int| 0 <= i < racks.len() ==> is_rack(#[trigger] r@[i], racks[i])
        }),
{
    let ghost racks = array_member(v@, "racks"@);
    let mut out: Vec<Rack> = Vec::new();
    let a: &Vec<Value> = match v.get("racks") {
        Some(x) => match x.as_arr() {
            Some(a) => a,
            None => {
                return out;
            },
        },
        None => {
            return out;
        },
    };
    assert(racks =~= json(Value::Arr(*a))->Arr_0);
    let mut i: usize = 0;
    while i < a.len()
        invariant
            i <= a@.len(),
            racks == json(Value::Arr(*a))->Arr_0,
            out@.len() == i,
            forall|k: int| 0 <= k < i ==> is_rack(#[trigger] out@[k], racks[k]),
        decreases a@.len() - i,
    {
        let r = &a[i];
        assert(racks[i as int] == r@);
        out.push(
            Rack {
                room: own(r.str_or("room", "")),
                short: own(r.str_or("short", "")),
                slots: read_slots(r),
            },
        );
        i = i + 1;
    }
    out
}

impl Config {
    /// The configuration that a text describes, or what is wrong with it.
    pub fn load(raw: &str) -> (r: Result<Config, String>)
        ensures
            match parsed_json(raw@) {
                Err(m) => r matches Err(e) && e@ == m,
                Ok(j) => {
                    let servers = array_member(j, "servers"@);
                    match r {
                        Ok(c) => is_config(c, j) && forall|i: int|
                            0 <= i < servers.len() ==> !pinned_to_name(#[trigger] servers[i]),
                        Err(e) => exists|i: int| #[trigger]
                            first_pinned_to_name(servers, i) && e@ == pinned_message(servers[i]),
                    }
                },
            },
    {
        let v = match parse(raw) {
            Ok(v) => v,
            Err(e) => {
                return Err(e);
            },
        };
        let servers = match read_servers(&v) {
            Ok(s) => s,
            Err(e) => {
                return Err(e);
            },
        };
        proof {
            let a = array_member(v@, "servers"@);
            assert forall|i: int| 0 <= i < a.len() implies !pinned_to_name(#[trigger] a[i]) by {
                assert(is_server(servers@[i], a[i]));
            }
        }
        let racks = read_racks(&v);
        let c = Config {
            ssh_user: own(v.str_or("ssh_user", "sukim")),
            public_mode: v.bool_or("public_mode", true),
            min_gap: v.num_or("min_ssh_interval_sec", literal(DEFAULT_MIN_GAP, -1)),
            window: v.num_or("ssh_rate_window_sec", Double::from_u64(DEFAULT_WINDOW)),
            max_per_window: v.num_or(
                "ssh_max_per_window",
                Double::from_u64(DEFAULT_MAX_PER_WINDOW as u64),
            ).to_range(0, usize::MAX as i128) as usize,
            connect_timeout: v.num_or("ssh_connect_timeout", Double::from_u64(6)).to_range(
                0,
                u64::MAX as i128,
            ) as u64,
            power_points: v.num_or("power_history_points", Double::from_u64(120)).to_range(
                0,
                usize::MAX as i128,
            ) as usize,
            power_log: v.bool_or("power_log", true),
            // Ten seconds: the statistics cannot resolve finer, and one row a second would be
            // 1.4 MB per server and day.
            stats_period: v.num_or("stats_period_sec", Double::from_u64(10)).to_range(
                0,
                u32::MAX as i128,
            ) as u32,
            stats_keep_days: v.num_or("stats_keep_days", Double::from_u64(365)).to_range(
                i64::MIN as i128,
                i64::MAX as i128,
            ) as i64,
            servers,
            racks,
        };
        Ok(c)
    }
}

} // verus!
