//! What a reader of the snapshot finds in it.
//!
//! The laws here go from the text that is written to what its parts are read as: each quantity
//! under its own name.

use vstd::prelude::*;
use crate::counts::{
    lemma_counts_cards, lemma_counts_servers, lemma_oldest, places, places_up, Which,
};
use crate::double::{nearest, whole, Double};
use crate::json::{member, parsed_json, Json};
use crate::model::{
    gpu_text, oldest_ts, pending_text, rack_text, server_text, snapshot, Gpu, Rack, Sample, Server,
    Status,
};
use crate::published::{
    address_members, counts_value, error_members, gpu_members, gpu_value, host_members, lemma_gpu,
    lemma_listed, lemma_pending, lemma_rack, lemma_server, lemma_snapshot_reads, listed_value,
    name_members, num, opt_members, pending_value, power_members, proc_value, rack_value,
    server_value, snapshot_value,
};
use crate::table::{lemma_put_lookup, lookup};
use crate::written::{elements_back, is_writable, lemma_json_round_trip, members_back, read_back};

verus! {

// ---------------------------------------------------------------- members

/// The last value of a key.
pub open spec fn last_value(m: Seq<(Seq<char>, Json)>, key: Seq<char>) -> Option<Json>
    decreases m.len(),
{
    if m.len() == 0 {
        None
    } else if m.last().0 == key {
        Some(m.last().1)
    } else {
        last_value(m.drop_last(), key)
    }
}

pub(crate) proof fn lemma_last_both(
    a: Seq<(Seq<char>, Json)>,
    b: Seq<(Seq<char>, Json)>,
    key: Seq<char>,
)
    ensures
        last_value(a + b, key) == match last_value(b, key) {
            Some(v) => Some(v),
            None => last_value(a, key),
        },
    decreases b.len(),
{
    if b.len() == 0 {
        assert(a + b =~= a);
    } else {
        assert((a + b).drop_last() =~= a + b.drop_last());
        assert((a + b).last() == b.last());
        lemma_last_both(a, b.drop_last(), key);
    }
}

proof fn lemma_members_back(m: Seq<(Seq<char>, Json)>, k: int, key: Seq<char>)
    requires
        0 <= k <= m.len(),
    ensures
        lookup(members_back(m, k), key) == match last_value(m.take(k), key) {
            Some(v) => Some(read_back(v)),
            None => None,
        },
    decreases k,
{
    if k > 0 {
        lemma_members_back(m, k - 1, key);
        assert(m.take(k).drop_last() =~= m.take(k - 1));
        assert(m.take(k).last() == m[k - 1]);
        lemma_put_lookup(members_back(m, k - 1), m[k - 1].0, read_back(m[k - 1].1), key);
    }
}

/// A member of an object that was written reads back as its last value.
pub proof fn lemma_member_back(m: Seq<(Seq<char>, Json)>, key: Seq<char>)
    ensures
        member(read_back(Json::Obj(m)), key) == match last_value(m, key) {
            Some(v) => Some(read_back(v)),
            None => None,
        },
{
    lemma_members_back(m, m.len() as int, key);
    assert(m.take(m.len() as int) =~= m);
}

pub(crate) proof fn lemma_elements_back(a: Seq<Json>, k: int)
    requires
        0 <= k <= a.len(),
    ensures
        elements_back(a, k).len() == k,
        forall|i: int| 0 <= i < k ==> (#[trigger] elements_back(a, k)[i]) == read_back(a[i]),
    decreases k,
{
    if k > 0 {
        lemma_elements_back(a, k - 1);
    }
}

pub(crate) proof fn lemma_step(m: Seq<(Seq<char>, Json)>, i: int, key: Seq<char>)
    requires
        0 < i <= m.len(),
    ensures
        last_value(m.take(i), key) == if m[i - 1].0 == key {
            Some(m[i - 1].1)
        } else {
            last_value(m.take(i - 1), key)
        },
        m.take(m.len() as int) == m,
{
    assert(m.take(i).drop_last() =~= m.take(i - 1));
    assert(m.take(i).last() == m[i - 1]);
    assert(m.take(m.len() as int) =~= m);
}

/// What a text reads as, where it can be read.
pub open spec fn said(t: Seq<char>) -> Json {
    parsed_json(t)->Ok_0
}

/// What a reading reads back as; nothing where there is none.
pub open spec fn shown(n: Option<Double>) -> Json {
    match n {
        Some(n) => read_back(Json::Num(n)),
        None => Json::Null,
    }
}

/// What an integer reads back as.
pub open spec fn shown_int(i: int) -> Json {
    read_back(Json::Num(whole(i)))
}

/// What a reading reads back as, where there is one.
pub open spec fn shown_if(n: Option<Double>) -> Option<Json> {
    match n {
        Some(n) => Some(read_back(Json::Num(n))),
        None => None,
    }
}

// ---------------------------------------------------------------- a card

#[verifier::rlimit(60)]
proof fn lemma_card_members(g: Gpu, procs: Json)
    ensures
        ({
            let m = seq![
                ("index"@, num(g.index as int)),
                ("name"@, Json::Str(g.name@)),
                ("util"@, crate::published::reading(g.util)),
                ("mem_used"@, crate::published::reading(g.mem_used)),
                ("mem_total"@, crate::published::reading(g.mem_total)),
                ("power"@, crate::published::reading(g.power)),
                ("power_limit"@, crate::published::reading(g.power_limit)),
                ("temp"@, crate::published::reading(g.temp)),
                ("fan"@, crate::published::reading(g.fan)),
                ("procs"@, procs),
            ];
            &&& last_value(m, "index"@) == Some(num(g.index as int))
            &&& last_value(m, "name"@) == Some(Json::Str(g.name@))
            &&& last_value(m, "util"@) == Some(crate::published::reading(g.util))
            &&& last_value(m, "mem_used"@) == Some(crate::published::reading(g.mem_used))
            &&& last_value(m, "mem_total"@) == Some(crate::published::reading(g.mem_total))
            &&& last_value(m, "power"@) == Some(crate::published::reading(g.power))
            &&& last_value(m, "power_limit"@) == Some(crate::published::reading(g.power_limit))
            &&& last_value(m, "temp"@) == Some(crate::published::reading(g.temp))
            &&& last_value(m, "fan"@) == Some(crate::published::reading(g.fan))
            &&& last_value(m, "procs"@) == Some(procs)
        }),
{
    reveal_strlit("index");
    reveal_strlit("name");
    reveal_strlit("util");
    reveal_strlit("mem_used");
    reveal_strlit("mem_total");
    reveal_strlit("power");
    reveal_strlit("power_limit");
    reveal_strlit("temp");
    reveal_strlit("fan");
    reveal_strlit("procs");
    assert("index"@[0] != "power"@[0]);
    assert("index"@[0] != "procs"@[0]);
    assert("name"@[0] != "util"@[0]);
    assert("name"@[0] != "temp"@[0]);
    assert("util"@[0] != "temp"@[0]);
    assert("power"@[1] != "procs"@[1]);
    let m = seq![
        ("index"@, num(g.index as int)),
        ("name"@, Json::Str(g.name@)),
        ("util"@, crate::published::reading(g.util)),
        ("mem_used"@, crate::published::reading(g.mem_used)),
        ("mem_total"@, crate::published::reading(g.mem_total)),
        ("power"@, crate::published::reading(g.power)),
        ("power_limit"@, crate::published::reading(g.power_limit)),
        ("temp"@, crate::published::reading(g.temp)),
        ("fan"@, crate::published::reading(g.fan)),
        ("procs"@, procs),
    ];
    assert(m.len() == 10);
    assert(m[0].0 == "index"@);
    assert(m[1].0 == "name"@);
    assert(m[2].0 == "util"@);
    assert(m[3].0 == "mem_used"@);
    assert(m[4].0 == "mem_total"@);
    assert(m[5].0 == "power"@);
    assert(m[6].0 == "power_limit"@);
    assert(m[7].0 == "temp"@);
    assert(m[8].0 == "fan"@);
    assert(m[9].0 == "procs"@);
    lemma_step(m, 10, "index"@);
    lemma_step(m, 9, "index"@);
    lemma_step(m, 8, "index"@);
    lemma_step(m, 7, "index"@);
    lemma_step(m, 6, "index"@);
    lemma_step(m, 5, "index"@);
    lemma_step(m, 4, "index"@);
    lemma_step(m, 3, "index"@);
    lemma_step(m, 2, "index"@);
    lemma_step(m, 1, "index"@);
    lemma_step(m, 10, "name"@);
    lemma_step(m, 9, "name"@);
    lemma_step(m, 8, "name"@);
    lemma_step(m, 7, "name"@);
    lemma_step(m, 6, "name"@);
    lemma_step(m, 5, "name"@);
    lemma_step(m, 4, "name"@);
    lemma_step(m, 3, "name"@);
    lemma_step(m, 2, "name"@);
    lemma_step(m, 10, "util"@);
    lemma_step(m, 9, "util"@);
    lemma_step(m, 8, "util"@);
    lemma_step(m, 7, "util"@);
    lemma_step(m, 6, "util"@);
    lemma_step(m, 5, "util"@);
    lemma_step(m, 4, "util"@);
    lemma_step(m, 3, "util"@);
    lemma_step(m, 10, "mem_used"@);
    lemma_step(m, 9, "mem_used"@);
    lemma_step(m, 8, "mem_used"@);
    lemma_step(m, 7, "mem_used"@);
    lemma_step(m, 6, "mem_used"@);
    lemma_step(m, 5, "mem_used"@);
    lemma_step(m, 4, "mem_used"@);
    lemma_step(m, 10, "mem_total"@);
    lemma_step(m, 9, "mem_total"@);
    lemma_step(m, 8, "mem_total"@);
    lemma_step(m, 7, "mem_total"@);
    lemma_step(m, 6, "mem_total"@);
    lemma_step(m, 5, "mem_total"@);
    lemma_step(m, 10, "power"@);
    lemma_step(m, 9, "power"@);
    lemma_step(m, 8, "power"@);
    lemma_step(m, 7, "power"@);
    lemma_step(m, 6, "power"@);
    lemma_step(m, 10, "power_limit"@);
    lemma_step(m, 9, "power_limit"@);
    lemma_step(m, 8, "power_limit"@);
    lemma_step(m, 7, "power_limit"@);
    lemma_step(m, 10, "temp"@);
    lemma_step(m, 9, "temp"@);
    lemma_step(m, 8, "temp"@);
    lemma_step(m, 10, "fan"@);
    lemma_step(m, 9, "fan"@);
    lemma_step(m, 10, "procs"@);
    assert(last_value(m, "index"@) == Some(m[0].1));
    assert(last_value(m, "name"@) == Some(m[1].1));
    assert(last_value(m, "util"@) == Some(m[2].1));
    assert(last_value(m, "mem_used"@) == Some(m[3].1));
    assert(last_value(m, "mem_total"@) == Some(m[4].1));
    assert(last_value(m, "power"@) == Some(m[5].1));
    assert(last_value(m, "power_limit"@) == Some(m[6].1));
    assert(last_value(m, "temp"@) == Some(m[7].1));
    assert(last_value(m, "fan"@) == Some(m[8].1));
    assert(last_value(m, "procs"@) == Some(m[9].1));
}

/// The law of a card in the snapshot: each quantity stands under its own name.
#[verifier::rlimit(60)]
pub proof fn lemma_card_says(g: Gpu)
    requires
        is_writable(gpu_value(g)),
    ensures
        parsed_json(gpu_text(g)) is Ok,
        member(said(gpu_text(g)), "index"@) == Some(shown_int(g.index as int)),
        member(said(gpu_text(g)), "name"@) == Some(Json::Str(g.name@)),
        member(said(gpu_text(g)), "util"@) == Some(shown(g.util)),
        member(said(gpu_text(g)), "mem_used"@) == Some(shown(g.mem_used)),
        member(said(gpu_text(g)), "mem_total"@) == Some(shown(g.mem_total)),
        member(said(gpu_text(g)), "power"@) == Some(shown(g.power)),
        member(said(gpu_text(g)), "power_limit"@) == Some(shown(g.power_limit)),
        member(said(gpu_text(g)), "temp"@) == Some(shown(g.temp)),
        member(said(gpu_text(g)), "fan"@) == Some(shown(g.fan)),
        member(said(gpu_text(g)), "procs"@) matches Some(Json::Arr(a)) && a.len() == g.procs@.len()
            && forall|i: int|
            0 <= i < a.len() ==> member(#[trigger] a[i], "mem"@) == Some(
                read_back(Json::Num(g.procs@[i])),
            ),
{
    lemma_gpu(g);
    lemma_json_round_trip(gpu_value(g));
    let v = gpu_value(g);
    let m = v->Obj_0;
    let ps = g.procs@.map_values(|m: Double| proc_value(m));
    lemma_card_members(g, Json::Arr(ps));
    lemma_member_back(m, "index"@);
    lemma_member_back(m, "name"@);
    lemma_member_back(m, "util"@);
    lemma_member_back(m, "mem_used"@);
    lemma_member_back(m, "mem_total"@);
    lemma_member_back(m, "power"@);
    lemma_member_back(m, "power_limit"@);
    lemma_member_back(m, "temp"@);
    lemma_member_back(m, "fan"@);
    lemma_member_back(m, "procs"@);
    lemma_elements_back(ps, ps.len() as int);
    let a = elements_back(ps, ps.len() as int);
    assert forall|i: int| 0 <= i < a.len() implies member(#[trigger] a[i], "mem"@) == Some(
        read_back(Json::Num(g.procs@[i])),
    ) by {
        let one = seq![("mem"@, Json::Num(g.procs@[i]))];
        assert(ps[i] == Json::Obj(one));
        lemma_member_back(one, "mem"@);
        assert(last_value(one, "mem"@) == Some(Json::Num(g.procs@[i])));
    }
}

// ---------------------------------------------------------------- a server

proof fn lemma_opt_last(k: Seq<char>, n: Option<Double>, key: Seq<char>)
    ensures
        last_value(opt_members(k, n), key) == if key == k && n is Some {
            Some(Json::Num(n->0))
        } else {
            None
        },
{
    let m = opt_members(k, n);
    if n is Some {
        lemma_step(m, 1, key);
        assert(m.take(0) =~= seq![]);
    }
}

proof fn lemma_name_last(s: Server, ts: int, status: Status, key: Seq<char>)
    ensures
        last_value(name_members(s, ts, status), key) == if key == "status"@ {
            Some(Json::Str(crate::model::status_name(status)))
        } else if key == "ts"@ {
            Some(num(ts))
        } else if key == "loc"@ {
            Some(Json::Str(s.loc@))
        } else if key == "n_gpu_expected"@ {
            Some(num(s.n_gpu as int))
        } else if key == "gpu_model"@ {
            Some(Json::Str(s.gpu_model@))
        } else if key == "name"@ {
            Some(Json::Str(s.name@))
        } else {
            None
        },
{
    let m = name_members(s, ts, status);
    assert(m.len() == 6);
    assert(m[5].0 == "status"@);
    assert(m[4].0 == "ts"@);
    assert(m[3].0 == "loc"@);
    assert(m[2].0 == "n_gpu_expected"@);
    assert(m[1].0 == "gpu_model"@);
    assert(m[0].0 == "name"@);
    lemma_step(m, 6, key);
    lemma_step(m, 5, key);
    lemma_step(m, 4, key);
    lemma_step(m, 3, key);
    lemma_step(m, 2, key);
    lemma_step(m, 1, key);
    assert(m.take(0) =~= seq![]);
}

proof fn lemma_address_last(s: Server, public: bool, key: Seq<char>)
    ensures
        last_value(address_members(s, public), key) == if public {
            None
        } else if key == "note"@ && s.note@.len() > 0 {
            Some(Json::Str(s.note@))
        } else if key == "port"@ {
            Some(num(s.port as int))
        } else if key == "host"@ {
            Some(Json::Str(s.host@))
        } else {
            None
        },
{
    if !public {
        let a = seq![("host"@, Json::Str(s.host@)), ("port"@, num(s.port as int))];
        assert(a.len() == 2 && a[0].0 == "host"@ && a[1].0 == "port"@);
        lemma_step(a, 2, key);
        lemma_step(a, 1, key);
        assert(a.take(0) =~= seq![]);
        let b: Seq<(Seq<char>, Json)> = if s.note@.len() == 0 {
            seq![]
        } else {
            seq![("note"@, Json::Str(s.note@))]
        };
        if b.len() > 0 {
            lemma_step(b, 1, key);
            assert(b.take(0) =~= seq![]);
        }
        lemma_last_both(a, b, key);
    }
}

proof fn lemma_error_last(d: Sample, public: bool, key: Seq<char>)
    ensures
        last_value(error_members(d, public), key) == if key == "error"@ && d.status != Status::Up {
            Some(
                Json::Str(
                    if public {
                        crate::model::public_error(d.status)
                    } else {
                        d.error@
                    },
                ),
            )
        } else {
            None
        },
{
    let m = error_members(d, public);
    if d.status != Status::Up {
        lemma_step(m, 1, key);
        assert(m.take(0) =~= seq![]);
    }
}

spec fn host_value(h: crate::model::Host, key: Seq<char>) -> Option<Json> {
    if key == "uptime_sec"@ && h.uptime_sec is Some {
        Some(Json::Num(h.uptime_sec->0))
    } else if key == "disk_used_kb"@ && h.disk_used_kb is Some {
        Some(Json::Num(h.disk_used_kb->0))
    } else if key == "disk_total_kb"@ && h.disk_total_kb is Some {
        Some(Json::Num(h.disk_total_kb->0))
    } else if key == "ram_used_mb"@ && h.ram_used_mb is Some {
        Some(Json::Num(h.ram_used_mb->0))
    } else if key == "ram_total_mb"@ && h.ram_total_mb is Some {
        Some(Json::Num(h.ram_total_mb->0))
    } else if key == "nproc"@ && h.nproc > 0 {
        Some(num(h.nproc as int))
    } else if key == "load1"@ && h.load1 is Some {
        Some(Json::Num(h.load1->0))
    } else {
        None
    }
}

proof fn lemma_host_last(h: crate::model::Host, key: Seq<char>)
    ensures
        last_value(host_members(h), key) == host_value(h, key),
{
    let n: Seq<(Seq<char>, Json)> = if h.nproc > 0 {
        seq![("nproc"@, num(h.nproc as int))]
    } else {
        seq![]
    };
    if h.nproc > 0 {
        lemma_step(n, 1, key);
        assert(n.take(0) =~= seq![]);
    }
    let a = opt_members("load1"@, h.load1);
    let b = opt_members("ram_total_mb"@, h.ram_total_mb);
    let c = opt_members("ram_used_mb"@, h.ram_used_mb);
    let d = opt_members("disk_total_kb"@, h.disk_total_kb);
    let e = opt_members("disk_used_kb"@, h.disk_used_kb);
    let f = opt_members("uptime_sec"@, h.uptime_sec);
    lemma_opt_last("load1"@, h.load1, key);
    lemma_opt_last("ram_total_mb"@, h.ram_total_mb, key);
    lemma_opt_last("ram_used_mb"@, h.ram_used_mb, key);
    lemma_opt_last("disk_total_kb"@, h.disk_total_kb, key);
    lemma_opt_last("disk_used_kb"@, h.disk_used_kb, key);
    lemma_opt_last("uptime_sec"@, h.uptime_sec, key);
    lemma_last_both(a, n, key);
    lemma_last_both(a + n, b, key);
    lemma_last_both(a + n + b, c, key);
    lemma_last_both(a + n + b + c, d, key);
    lemma_last_both(a + n + b + c + d, e, key);
    lemma_last_both(a + n + b + c + d + e, f, key);
}

proof fn lemma_power_last(d: Sample, key: Seq<char>)
    ensures
        last_value(power_members(d), key) == if key == "watt_history"@ && d.watt_history@.len()
            > 0 {
            Some(Json::Arr(d.watt_history@.map_values(|v: Double| Json::Num(nearest(v)))))
        } else if key == "watts"@ && d.watts is Some {
            Some(Json::Num(d.watts->0))
        } else {
            None
        },
{
    let a = opt_members("watts"@, d.watts);
    let h = Json::Arr(d.watt_history@.map_values(|v: Double| Json::Num(nearest(v))));
    let b: Seq<(Seq<char>, Json)> = if d.watt_history@.len() == 0 {
        seq![]
    } else {
        seq![("watt_history"@, h)]
    };
    if b.len() > 0 {
        lemma_step(b, 1, key);
        assert(b.take(0) =~= seq![]);
    }
    lemma_opt_last("watts"@, d.watts, key);
    lemma_last_both(a, b, key);
}

proof fn lemma_gpus_last(d: Sample, key: Seq<char>)
    ensures
        last_value(gpu_members(d), key) == if key == "gpus"@ && d.gpus@.len() > 0 {
            Some(Json::Arr(d.gpus@.map_values(|g: Gpu| gpu_value(g))))
        } else {
            None
        },
{
    let m = gpu_members(d);
    if m.len() > 0 {
        lemma_step(m, 1, key);
        assert(m.take(0) =~= seq![]);
    }
}

spec fn or_else(a: Option<Json>, b: Option<Json>) -> Option<Json> {
    match a {
        Some(v) => Some(v),
        None => b,
    }
}

proof fn lemma_server_last(s: Server, d: Sample, public: bool, key: Seq<char>)
    ensures
        last_value(server_value(s, d, public)->Obj_0, key) == or_else(
            last_value(gpu_members(d), key),
            or_else(
                last_value(power_members(d), key),
                or_else(
                    last_value(host_members(d.host), key),
                    or_else(
                        last_value(error_members(d, public), key),
                        or_else(
                            last_value(address_members(s, public), key),
                            last_value(name_members(s, d.ts as int, d.status), key),
                        ),
                    ),
                ),
            ),
        ),
        member(read_back(server_value(s, d, public)), key) == match last_value(
            server_value(s, d, public)->Obj_0,
            key,
        ) {
            Some(v) => Some(read_back(v)),
            None => None,
        },
{
    let n = name_members(s, d.ts as int, d.status);
    let a = address_members(s, public);
    let e = error_members(d, public);
    let h = host_members(d.host);
    let p = power_members(d);
    let g = gpu_members(d);
    lemma_last_both(n, a, key);
    lemma_last_both(n + a, e, key);
    lemma_last_both(n + a + e, h, key);
    lemma_last_both(n + a + e + h, p, key);
    lemma_last_both(n + a + e + h + p, g, key);
    lemma_member_back(n + a + e + h + p + g, key);
}

proof fn lemma_server_key(s: Server, d: Sample, public: bool, key: Seq<char>)
    ensures
        ({
            let r = member(read_back(server_value(s, d, public)), key);
            let g = last_value(gpu_members(d), key);
            let p = last_value(power_members(d), key);
            let h = host_value(d.host, key);
            let e = last_value(error_members(d, public), key);
            let a = last_value(address_members(s, public), key);
            let n = last_value(name_members(s, d.ts as int, d.status), key);
            r == match or_else(g, or_else(p, or_else(h, or_else(e, or_else(a, n))))) {
                Some(v) => Some(read_back(v)),
                None => None,
            }
        }),
{
    lemma_server_last(s, d, public, key);
    lemma_host_last(d.host, key);
}

/// Which of the keys of a server it is.
spec fn key_number(key: Seq<char>) -> int {
    if key == "name"@ {
        0
    } else if key == "gpu_model"@ {
        1
    } else if key == "n_gpu_expected"@ {
        2
    } else if key == "loc"@ {
        3
    } else if key == "ts"@ {
        4
    } else if key == "status"@ {
        5
    } else if key == "host"@ {
        6
    } else if key == "port"@ {
        7
    } else if key == "note"@ {
        8
    } else if key == "error"@ {
        9
    } else if key == "load1"@ {
        10
    } else if key == "nproc"@ {
        11
    } else if key == "ram_total_mb"@ {
        12
    } else if key == "ram_used_mb"@ {
        13
    } else if key == "disk_total_kb"@ {
        14
    } else if key == "disk_used_kb"@ {
        15
    } else if key == "uptime_sec"@ {
        16
    } else if key == "watts"@ {
        17
    } else if key == "watt_history"@ {
        18
    } else if key == "gpus"@ {
        19
    } else {
        -1
    }
}

#[verifier::rlimit(60)]
proof fn lemma_key_numbers()
    ensures
        key_number("name"@) == 0,
        key_number("gpu_model"@) == 1,
        key_number("n_gpu_expected"@) == 2,
        key_number("loc"@) == 3,
        key_number("ts"@) == 4,
        key_number("status"@) == 5,
        key_number("host"@) == 6,
        key_number("port"@) == 7,
        key_number("note"@) == 8,
        key_number("error"@) == 9,
        key_number("load1"@) == 10,
        key_number("nproc"@) == 11,
        key_number("ram_total_mb"@) == 12,
        key_number("ram_used_mb"@) == 13,
        key_number("disk_total_kb"@) == 14,
        key_number("disk_used_kb"@) == 15,
        key_number("uptime_sec"@) == 16,
        key_number("watts"@) == 17,
        key_number("watt_history"@) == 18,
        key_number("gpus"@) == 19,
{
    reveal_strlit("name");
    reveal_strlit("gpu_model");
    reveal_strlit("n_gpu_expected");
    reveal_strlit("loc");
    reveal_strlit("ts");
    reveal_strlit("status");
    reveal_strlit("host");
    reveal_strlit("port");
    reveal_strlit("note");
    reveal_strlit("error");
    reveal_strlit("load1");
    reveal_strlit("nproc");
    reveal_strlit("ram_total_mb");
    reveal_strlit("ram_used_mb");
    reveal_strlit("disk_total_kb");
    reveal_strlit("disk_used_kb");
    reveal_strlit("uptime_sec");
    reveal_strlit("watts");
    reveal_strlit("watt_history");
    reveal_strlit("gpus");
    assert("name"@.len() == 4);
    assert("gpu_model"@.len() == 9);
    assert("n_gpu_expected"@.len() == 14);
    assert("loc"@.len() == 3);
    assert("ts"@.len() == 2);
    assert("status"@.len() == 6);
    assert("host"@.len() == 4);
    assert("port"@.len() == 4);
    assert("note"@.len() == 4);
    assert("error"@.len() == 5);
    assert("load1"@.len() == 5);
    assert("nproc"@.len() == 5);
    assert("ram_total_mb"@.len() == 12);
    assert("ram_used_mb"@.len() == 11);
    assert("disk_total_kb"@.len() == 13);
    assert("disk_used_kb"@.len() == 12);
    assert("uptime_sec"@.len() == 10);
    assert("watts"@.len() == 5);
    assert("watt_history"@.len() == 12);
    assert("gpus"@.len() == 4);
    assert("name"@[0] != "host"@[0]);
    assert("name"@[0] != "port"@[0]);
    assert("name"@[1] != "note"@[1]);
    assert("name"@[0] != "gpus"@[0]);
    assert("host"@[0] != "port"@[0]);
    assert("host"@[0] != "note"@[0]);
    assert("host"@[0] != "gpus"@[0]);
    assert("port"@[0] != "note"@[0]);
    assert("port"@[0] != "gpus"@[0]);
    assert("note"@[0] != "gpus"@[0]);
    assert("error"@[0] != "load1"@[0]);
    assert("error"@[0] != "nproc"@[0]);
    assert("error"@[0] != "watts"@[0]);
    assert("load1"@[0] != "nproc"@[0]);
    assert("load1"@[0] != "watts"@[0]);
    assert("nproc"@[0] != "watts"@[0]);
    assert("ram_total_mb"@[0] != "disk_used_kb"@[0]);
    assert("ram_total_mb"@[0] != "watt_history"@[0]);
    assert("disk_used_kb"@[0] != "watt_history"@[0]);
}

/// The law of a server in the snapshot: each quantity stands under its own name, those that are
/// not reported are left out, and where the snapshot is public there is no address, no note and
/// no error but a common one.
#[verifier::rlimit(60)]
pub proof fn lemma_server_says(s: Server, d: Sample, public: bool)
    requires
        is_writable(server_value(s, d, public)),
    ensures
        parsed_json(server_text(s, d, public)) is Ok,
        ({
            let o = said(server_text(s, d, public));
            &&& member(o, "name"@) == Some(Json::Str(s.name@))
            &&& member(o, "gpu_model"@) == Some(Json::Str(s.gpu_model@))
            &&& member(o, "n_gpu_expected"@) == Some(shown_int(s.n_gpu as int))
            &&& member(o, "loc"@) == Some(Json::Str(s.loc@))
            &&& member(o, "ts"@) == Some(shown_int(d.ts as int))
            &&& member(o, "status"@) == Some(
                Json::Str(
                    match d.status {
                        Status::Up => "ok"@,
                        Status::Pending => "pending"@,
                        Status::Down => "down"@,
                        Status::NoGpu => "nogpu"@,
                    },
                ),
            )
            &&& public ==> member(o, "host"@) is None && member(o, "port"@) is None && member(
                o,
                "note"@,
            ) is None
            &&& !public ==> member(o, "host"@) == Some(Json::Str(s.host@)) && member(o, "port"@)
                == Some(shown_int(s.port as int)) && member(o, "note"@) == if s.note@.len() == 0 {
                None
            } else {
                Some(Json::Str(s.note@))
            }
            &&& member(o, "error"@) is None <==> d.status == Status::Up
            &&& !public && d.status != Status::Up ==> member(o, "error"@) == Some(
                Json::Str(d.error@),
            )
            &&& public && d.status != Status::Up ==> member(o, "error"@) == Some(
                Json::Str(
                    match d.status {
                        Status::Pending => "연결 중"@,
                        Status::NoGpu => "no GPU reported"@,
                        _ => "unreachable"@,
                    },
                ),
            )
            &&& member(o, "load1"@) == shown_if(d.host.load1)
            &&& member(o, "nproc"@) == if d.host.nproc == 0 {
                None
            } else {
                Some(shown_int(d.host.nproc as int))
            }
            &&& member(o, "ram_total_mb"@) == shown_if(d.host.ram_total_mb)
            &&& member(o, "ram_used_mb"@) == shown_if(d.host.ram_used_mb)
            &&& member(o, "disk_total_kb"@) == shown_if(d.host.disk_total_kb)
            &&& member(o, "disk_used_kb"@) == shown_if(d.host.disk_used_kb)
            &&& member(o, "uptime_sec"@) == shown_if(d.host.uptime_sec)
            &&& member(o, "watts"@) == shown_if(d.watts)
            &&& member(o, "watt_history"@) is None <==> d.watt_history@.len() == 0
            &&& member(o, "gpus"@) is None <==> d.gpus@.len() == 0
        }),
{
    lemma_server(s, d, public);
    lemma_json_round_trip(server_value(s, d, public));
    lemma_key_numbers();
    assert(key_number("name"@) == 0);
    lemma_server_key(s, d, public, "name"@);
    lemma_gpus_last(d, "name"@);
    lemma_power_last(d, "name"@);
    lemma_error_last(d, public, "name"@);
    lemma_address_last(s, public, "name"@);
    lemma_name_last(s, d.ts as int, d.status, "name"@);
    assert(key_number("gpu_model"@) == 1);
    lemma_server_key(s, d, public, "gpu_model"@);
    lemma_gpus_last(d, "gpu_model"@);
    lemma_power_last(d, "gpu_model"@);
    lemma_error_last(d, public, "gpu_model"@);
    lemma_address_last(s, public, "gpu_model"@);
    lemma_name_last(s, d.ts as int, d.status, "gpu_model"@);
    assert(key_number("n_gpu_expected"@) == 2);
    lemma_server_key(s, d, public, "n_gpu_expected"@);
    lemma_gpus_last(d, "n_gpu_expected"@);
    lemma_power_last(d, "n_gpu_expected"@);
    lemma_error_last(d, public, "n_gpu_expected"@);
    lemma_address_last(s, public, "n_gpu_expected"@);
    lemma_name_last(s, d.ts as int, d.status, "n_gpu_expected"@);
    assert(key_number("loc"@) == 3);
    lemma_server_key(s, d, public, "loc"@);
    lemma_gpus_last(d, "loc"@);
    lemma_power_last(d, "loc"@);
    lemma_error_last(d, public, "loc"@);
    lemma_address_last(s, public, "loc"@);
    lemma_name_last(s, d.ts as int, d.status, "loc"@);
    assert(key_number("ts"@) == 4);
    lemma_server_key(s, d, public, "ts"@);
    lemma_gpus_last(d, "ts"@);
    lemma_power_last(d, "ts"@);
    lemma_error_last(d, public, "ts"@);
    lemma_address_last(s, public, "ts"@);
    lemma_name_last(s, d.ts as int, d.status, "ts"@);
    assert(key_number("status"@) == 5);
    lemma_server_key(s, d, public, "status"@);
    lemma_gpus_last(d, "status"@);
    lemma_power_last(d, "status"@);
    lemma_error_last(d, public, "status"@);
    lemma_address_last(s, public, "status"@);
    lemma_name_last(s, d.ts as int, d.status, "status"@);
    assert(key_number("host"@) == 6);
    lemma_server_key(s, d, public, "host"@);
    lemma_gpus_last(d, "host"@);
    lemma_power_last(d, "host"@);
    lemma_error_last(d, public, "host"@);
    lemma_address_last(s, public, "host"@);
    lemma_name_last(s, d.ts as int, d.status, "host"@);
    assert(key_number("port"@) == 7);
    lemma_server_key(s, d, public, "port"@);
    lemma_gpus_last(d, "port"@);
    lemma_power_last(d, "port"@);
    lemma_error_last(d, public, "port"@);
    lemma_address_last(s, public, "port"@);
    lemma_name_last(s, d.ts as int, d.status, "port"@);
    assert(key_number("note"@) == 8);
    lemma_server_key(s, d, public, "note"@);
    lemma_gpus_last(d, "note"@);
    lemma_power_last(d, "note"@);
    lemma_error_last(d, public, "note"@);
    lemma_address_last(s, public, "note"@);
    lemma_name_last(s, d.ts as int, d.status, "note"@);
    assert(key_number("error"@) == 9);
    lemma_server_key(s, d, public, "error"@);
    lemma_gpus_last(d, "error"@);
    lemma_power_last(d, "error"@);
    lemma_error_last(d, public, "error"@);
    lemma_address_last(s, public, "error"@);
    lemma_name_last(s, d.ts as int, d.status, "error"@);
    assert(key_number("load1"@) == 10);
    lemma_server_key(s, d, public, "load1"@);
    lemma_gpus_last(d, "load1"@);
    lemma_power_last(d, "load1"@);
    lemma_error_last(d, public, "load1"@);
    lemma_address_last(s, public, "load1"@);
    lemma_name_last(s, d.ts as int, d.status, "load1"@);
    assert(key_number("nproc"@) == 11);
    lemma_server_key(s, d, public, "nproc"@);
    lemma_gpus_last(d, "nproc"@);
    lemma_power_last(d, "nproc"@);
    lemma_error_last(d, public, "nproc"@);
    lemma_address_last(s, public, "nproc"@);
    lemma_name_last(s, d.ts as int, d.status, "nproc"@);
    assert(key_number("ram_total_mb"@) == 12);
    lemma_server_key(s, d, public, "ram_total_mb"@);
    lemma_gpus_last(d, "ram_total_mb"@);
    lemma_power_last(d, "ram_total_mb"@);
    lemma_error_last(d, public, "ram_total_mb"@);
    lemma_address_last(s, public, "ram_total_mb"@);
    lemma_name_last(s, d.ts as int, d.status, "ram_total_mb"@);
    assert(key_number("ram_used_mb"@) == 13);
    lemma_server_key(s, d, public, "ram_used_mb"@);
    lemma_gpus_last(d, "ram_used_mb"@);
    lemma_power_last(d, "ram_used_mb"@);
    lemma_error_last(d, public, "ram_used_mb"@);
    lemma_address_last(s, public, "ram_used_mb"@);
    lemma_name_last(s, d.ts as int, d.status, "ram_used_mb"@);
    assert(key_number("disk_total_kb"@) == 14);
    lemma_server_key(s, d, public, "disk_total_kb"@);
    lemma_gpus_last(d, "disk_total_kb"@);
    lemma_power_last(d, "disk_total_kb"@);
    lemma_error_last(d, public, "disk_total_kb"@);
    lemma_address_last(s, public, "disk_total_kb"@);
    lemma_name_last(s, d.ts as int, d.status, "disk_total_kb"@);
    assert(key_number("disk_used_kb"@) == 15);
    lemma_server_key(s, d, public, "disk_used_kb"@);
    lemma_gpus_last(d, "disk_used_kb"@);
    lemma_power_last(d, "disk_used_kb"@);
    lemma_error_last(d, public, "disk_used_kb"@);
    lemma_address_last(s, public, "disk_used_kb"@);
    lemma_name_last(s, d.ts as int, d.status, "disk_used_kb"@);
    assert(key_number("uptime_sec"@) == 16);
    lemma_server_key(s, d, public, "uptime_sec"@);
    lemma_gpus_last(d, "uptime_sec"@);
    lemma_power_last(d, "uptime_sec"@);
    lemma_error_last(d, public, "uptime_sec"@);
    lemma_address_last(s, public, "uptime_sec"@);
    lemma_name_last(s, d.ts as int, d.status, "uptime_sec"@);
    assert(key_number("watts"@) == 17);
    lemma_server_key(s, d, public, "watts"@);
    lemma_gpus_last(d, "watts"@);
    lemma_power_last(d, "watts"@);
    lemma_error_last(d, public, "watts"@);
    lemma_address_last(s, public, "watts"@);
    lemma_name_last(s, d.ts as int, d.status, "watts"@);
    assert(key_number("watt_history"@) == 18);
    lemma_server_key(s, d, public, "watt_history"@);
    lemma_gpus_last(d, "watt_history"@);
    lemma_power_last(d, "watt_history"@);
    lemma_error_last(d, public, "watt_history"@);
    lemma_address_last(s, public, "watt_history"@);
    lemma_name_last(s, d.ts as int, d.status, "watt_history"@);
    assert(key_number("gpus"@) == 19);
    lemma_server_key(s, d, public, "gpus"@);
    lemma_gpus_last(d, "gpus"@);
    lemma_power_last(d, "gpus"@);
    lemma_error_last(d, public, "gpus"@);
    lemma_address_last(s, public, "gpus"@);
    lemma_name_last(s, d.ts as int, d.status, "gpus"@);
}

/// The cards of a server are listed in their order, and so is the power it drew.
#[verifier::rlimit(60)]
pub proof fn lemma_server_lists(s: Server, d: Sample, public: bool)
    requires
        is_writable(server_value(s, d, public)),
    ensures
        ({
            let o = said(server_text(s, d, public));
            &&& d.gpus@.len() > 0 ==> (member(o, "gpus"@) matches Some(Json::Arr(a)) && a.len()
                == d.gpus@.len() && forall|j: int|
                0 <= j < a.len() ==> #[trigger] a[j] == read_back(gpu_value(d.gpus@[j])) && (
                is_writable(gpu_value(d.gpus@[j])) ==> a[j] == said(gpu_text(d.gpus@[j]))))
            &&& d.watt_history@.len() > 0 ==> (member(o, "watt_history"@) matches Some(
                Json::Arr(a),
            ) && a.len() == d.watt_history@.len() && forall|j: int|
                0 <= j < a.len() ==> #[trigger] a[j] == read_back(
                    Json::Num(nearest(d.watt_history@[j])),
                ))
        }),
{
    lemma_server(s, d, public);
    lemma_json_round_trip(server_value(s, d, public));
    lemma_key_numbers();
    lemma_server_key(s, d, public, "gpus"@);
    lemma_gpus_last(d, "gpus"@);
    assert(key_number("watt_history"@) == 18);
    assert(key_number("gpus"@) == 19);
    lemma_server_key(s, d, public, "watt_history"@);
    lemma_gpus_last(d, "watt_history"@);
    lemma_power_last(d, "watt_history"@);
    let gs = d.gpus@.map_values(|g: Gpu| gpu_value(g));
    let ws = d.watt_history@.map_values(|v: Double| Json::Num(nearest(v)));
    lemma_elements_back(gs, gs.len() as int);
    lemma_elements_back(ws, ws.len() as int);
    assert forall|j: int| 0 <= j < gs.len() && is_writable(gpu_value(d.gpus@[j])) implies (
    #[trigger] elements_back(gs, gs.len() as int)[j]) == said(gpu_text(d.gpus@[j])) by {
        lemma_gpu(d.gpus@[j]);
        lemma_json_round_trip(gpu_value(d.gpus@[j]));
    }
}

/// A server that has reported nothing is shown as pending, with no readings.
#[verifier::rlimit(60)]
pub proof fn lemma_pending_says(s: Server, public: bool)
    requires
        is_writable(pending_value(s, public)),
    ensures
        parsed_json(pending_text(s, public)) is Ok,
        ({
            let o = said(pending_text(s, public));
            &&& member(o, "name"@) == Some(Json::Str(s.name@))
            &&& member(o, "gpu_model"@) == Some(Json::Str(s.gpu_model@))
            &&& member(o, "n_gpu_expected"@) == Some(shown_int(s.n_gpu as int))
            &&& member(o, "loc"@) == Some(Json::Str(s.loc@))
            &&& member(o, "ts"@) == Some(shown_int(0))
            &&& member(o, "status"@) == Some(Json::Str("pending"@))
            &&& member(o, "error"@) is Some
            &&& member(o, "watts"@) is None
            &&& member(o, "gpus"@) is None
            &&& public ==> member(o, "host"@) is None && member(o, "port"@) is None && member(
                o,
                "note"@,
            ) is None
            &&& !public ==> member(o, "host"@) == Some(Json::Str(s.host@)) && member(o, "port"@)
                == Some(shown_int(s.port as int))
        }),
{
    lemma_pending(s, public);
    lemma_json_round_trip(pending_value(s, public));
    lemma_key_numbers();
    let n = name_members(s, 0, Status::Pending);
    let a = address_members(s, public);
    let e = seq![("error"@, Json::Str("연결 중"@))];
    assert(key_number("name"@) == 0);
    lemma_step(e, 1, "name"@);
    lemma_last_both(n, a, "name"@);
    lemma_last_both(n + a, e, "name"@);
    lemma_member_back(n + a + e, "name"@);
    lemma_address_last(s, public, "name"@);
    lemma_name_last(s, 0, Status::Pending, "name"@);
    assert(key_number("gpu_model"@) == 1);
    lemma_step(e, 1, "gpu_model"@);
    lemma_last_both(n, a, "gpu_model"@);
    lemma_last_both(n + a, e, "gpu_model"@);
    lemma_member_back(n + a + e, "gpu_model"@);
    lemma_address_last(s, public, "gpu_model"@);
    lemma_name_last(s, 0, Status::Pending, "gpu_model"@);
    assert(key_number("n_gpu_expected"@) == 2);
    lemma_step(e, 1, "n_gpu_expected"@);
    lemma_last_both(n, a, "n_gpu_expected"@);
    lemma_last_both(n + a, e, "n_gpu_expected"@);
    lemma_member_back(n + a + e, "n_gpu_expected"@);
    lemma_address_last(s, public, "n_gpu_expected"@);
    lemma_name_last(s, 0, Status::Pending, "n_gpu_expected"@);
    assert(key_number("loc"@) == 3);
    lemma_step(e, 1, "loc"@);
    lemma_last_both(n, a, "loc"@);
    lemma_last_both(n + a, e, "loc"@);
    lemma_member_back(n + a + e, "loc"@);
    lemma_address_last(s, public, "loc"@);
    lemma_name_last(s, 0, Status::Pending, "loc"@);
    assert(key_number("ts"@) == 4);
    lemma_step(e, 1, "ts"@);
    lemma_last_both(n, a, "ts"@);
    lemma_last_both(n + a, e, "ts"@);
    lemma_member_back(n + a + e, "ts"@);
    lemma_address_last(s, public, "ts"@);
    lemma_name_last(s, 0, Status::Pending, "ts"@);
    assert(key_number("status"@) == 5);
    lemma_step(e, 1, "status"@);
    lemma_last_both(n, a, "status"@);
    lemma_last_both(n + a, e, "status"@);
    lemma_member_back(n + a + e, "status"@);
    lemma_address_last(s, public, "status"@);
    lemma_name_last(s, 0, Status::Pending, "status"@);
    assert(key_number("error"@) == 9);
    lemma_step(e, 1, "error"@);
    lemma_last_both(n, a, "error"@);
    lemma_last_both(n + a, e, "error"@);
    lemma_member_back(n + a + e, "error"@);
    lemma_address_last(s, public, "error"@);
    lemma_name_last(s, 0, Status::Pending, "error"@);
    assert(key_number("watts"@) == 17);
    lemma_step(e, 1, "watts"@);
    lemma_last_both(n, a, "watts"@);
    lemma_last_both(n + a, e, "watts"@);
    lemma_member_back(n + a + e, "watts"@);
    lemma_address_last(s, public, "watts"@);
    lemma_name_last(s, 0, Status::Pending, "watts"@);
    assert(key_number("gpus"@) == 19);
    lemma_step(e, 1, "gpus"@);
    lemma_last_both(n, a, "gpus"@);
    lemma_last_both(n + a, e, "gpus"@);
    lemma_member_back(n + a + e, "gpus"@);
    lemma_address_last(s, public, "gpus"@);
    lemma_name_last(s, 0, Status::Pending, "gpus"@);
    assert(key_number("host"@) == 6);
    lemma_step(e, 1, "host"@);
    lemma_last_both(n, a, "host"@);
    lemma_last_both(n + a, e, "host"@);
    lemma_member_back(n + a + e, "host"@);
    lemma_address_last(s, public, "host"@);
    lemma_name_last(s, 0, Status::Pending, "host"@);
    assert(key_number("port"@) == 7);
    lemma_step(e, 1, "port"@);
    lemma_last_both(n, a, "port"@);
    lemma_last_both(n + a, e, "port"@);
    lemma_member_back(n + a + e, "port"@);
    lemma_address_last(s, public, "port"@);
    lemma_name_last(s, 0, Status::Pending, "port"@);
    assert(key_number("note"@) == 8);
    lemma_step(e, 1, "note"@);
    lemma_last_both(n, a, "note"@);
    lemma_last_both(n + a, e, "note"@);
    lemma_member_back(n + a + e, "note"@);
    lemma_address_last(s, public, "note"@);
    lemma_name_last(s, 0, Status::Pending, "note"@);
    assert(e.take(0) =~= seq![]);
}

// ---------------------------------------------------------------- the whole

#[verifier::rlimit(40)]
proof fn lemma_count_members(a: Json, b: Json, c: Json, d: Json, e: Json)
    ensures
        ({
            let m = seq![
                ("servers_total"@, a),
                ("servers_up"@, b),
                ("gpus_total"@, c),
                ("gpus_busy"@, d),
                ("gpus_free"@, e),
            ];
            &&& last_value(m, "servers_total"@) == Some(a)
            &&& last_value(m, "servers_up"@) == Some(b)
            &&& last_value(m, "gpus_total"@) == Some(c)
            &&& last_value(m, "gpus_busy"@) == Some(d)
            &&& last_value(m, "gpus_free"@) == Some(e)
        }),
{
    reveal_strlit("servers_total");
    reveal_strlit("servers_up");
    reveal_strlit("gpus_total");
    reveal_strlit("gpus_busy");
    reveal_strlit("gpus_free");
    assert("servers_total"@.len() == 13);
    assert("servers_up"@.len() == 10);
    assert("gpus_total"@.len() == 10);
    assert("gpus_busy"@.len() == 9);
    assert("gpus_free"@.len() == 9);
    assert("servers_up"@[0] != "gpus_total"@[0]);
    assert("gpus_busy"@[5] != "gpus_free"@[5]);
    let m = seq![
        ("servers_total"@, a),
        ("servers_up"@, b),
        ("gpus_total"@, c),
        ("gpus_busy"@, d),
        ("gpus_free"@, e),
    ];
    assert(m.len() == 5);
    assert(m[0].0 == "servers_total"@);
    assert(m[1].0 == "servers_up"@);
    assert(m[2].0 == "gpus_total"@);
    assert(m[3].0 == "gpus_busy"@);
    assert(m[4].0 == "gpus_free"@);
    lemma_step(m, 5, "servers_total"@);
    lemma_step(m, 4, "servers_total"@);
    lemma_step(m, 3, "servers_total"@);
    lemma_step(m, 2, "servers_total"@);
    lemma_step(m, 1, "servers_total"@);
    lemma_step(m, 5, "servers_up"@);
    lemma_step(m, 4, "servers_up"@);
    lemma_step(m, 3, "servers_up"@);
    lemma_step(m, 2, "servers_up"@);
    lemma_step(m, 5, "gpus_total"@);
    lemma_step(m, 4, "gpus_total"@);
    lemma_step(m, 3, "gpus_total"@);
    lemma_step(m, 5, "gpus_busy"@);
    lemma_step(m, 4, "gpus_busy"@);
    lemma_step(m, 5, "gpus_free"@);
}

#[verifier::rlimit(40)]
proof fn lemma_whole_members(g: Json, p: Json, r: Json, c: Json, v: Json, public: bool)
    ensures
        ({
            let m = seq![
                ("generated_at"@, g),
                ("poll_interval_sec"@, p),
                ("racks"@, r),
                ("summary"@, c),
                ("servers"@, v),
            ] + if public {
                seq![("redacted"@, Json::Bool(true))]
            } else {
                seq![]
            };
            &&& last_value(m, "generated_at"@) == Some(g)
            &&& last_value(m, "poll_interval_sec"@) == Some(p)
            &&& last_value(m, "racks"@) == Some(r)
            &&& last_value(m, "summary"@) == Some(c)
            &&& last_value(m, "servers"@) == Some(v)
            &&& last_value(m, "redacted"@) == if public {
                Some(Json::Bool(true))
            } else {
                None
            }
        }),
{
    reveal_strlit("generated_at");
    reveal_strlit("poll_interval_sec");
    reveal_strlit("racks");
    reveal_strlit("summary");
    reveal_strlit("servers");
    reveal_strlit("redacted");
    assert("generated_at"@.len() == 12);
    assert("poll_interval_sec"@.len() == 17);
    assert("racks"@.len() == 5);
    assert("summary"@.len() == 7);
    assert("servers"@.len() == 7);
    assert("redacted"@.len() == 8);
    assert("summary"@[1] != "servers"@[1]);
    let a = seq![
        ("generated_at"@, g),
        ("poll_interval_sec"@, p),
        ("racks"@, r),
        ("summary"@, c),
        ("servers"@, v),
    ];
    let z: Seq<(Seq<char>, Json)> = if public {
        seq![("redacted"@, Json::Bool(true))]
    } else {
        seq![]
    };
    assert(a.len() == 5);
    assert(a.take(0) =~= seq![]);
    assert(a[0].0 == "generated_at"@);
    assert(a[1].0 == "poll_interval_sec"@);
    assert(a[2].0 == "racks"@);
    assert(a[3].0 == "summary"@);
    assert(a[4].0 == "servers"@);
    lemma_step(a, 5, "generated_at"@);
    lemma_step(a, 4, "generated_at"@);
    lemma_step(a, 3, "generated_at"@);
    lemma_step(a, 2, "generated_at"@);
    lemma_step(a, 1, "generated_at"@);
    if public {
        lemma_step(z, 1, "generated_at"@);
    }
    lemma_last_both(a, z, "generated_at"@);
    lemma_step(a, 5, "poll_interval_sec"@);
    lemma_step(a, 4, "poll_interval_sec"@);
    lemma_step(a, 3, "poll_interval_sec"@);
    lemma_step(a, 2, "poll_interval_sec"@);
    if public {
        lemma_step(z, 1, "poll_interval_sec"@);
    }
    lemma_last_both(a, z, "poll_interval_sec"@);
    lemma_step(a, 5, "racks"@);
    lemma_step(a, 4, "racks"@);
    lemma_step(a, 3, "racks"@);
    if public {
        lemma_step(z, 1, "racks"@);
    }
    lemma_last_both(a, z, "racks"@);
    lemma_step(a, 5, "summary"@);
    lemma_step(a, 4, "summary"@);
    if public {
        lemma_step(z, 1, "summary"@);
    }
    lemma_last_both(a, z, "summary"@);
    lemma_step(a, 5, "servers"@);
    if public {
        lemma_step(z, 1, "servers"@);
    }
    lemma_last_both(a, z, "servers"@);
    lemma_step(a, 5, "redacted"@);
    lemma_step(a, 4, "redacted"@);
    lemma_step(a, 3, "redacted"@);
    lemma_step(a, 2, "redacted"@);
    lemma_step(a, 1, "redacted"@);
    if public {
        lemma_step(z, 1, "redacted"@);
    }
    lemma_last_both(a, z, "redacted"@);
    assert(z.take(0) =~= seq![]);
}

/// The law of the counts in the snapshot: how many servers there are, how many of them are up,
/// how many cards those have, how many of these work and how many do not.
#[verifier::rlimit(60)]
pub proof fn lemma_snapshot_counts(
    racks: Seq<Rack>,
    order: Seq<&Server>,
    samples: Seq<(Seq<char>, Sample)>,
    public: bool,
)
    requires
        is_writable(snapshot_value(racks, order, samples, public)),
    ensures
        parsed_json(snapshot(racks, order, samples, public)) is Ok,
        member(said(snapshot(racks, order, samples, public)), "summary"@) is Some,
        ({
            let c = member(said(snapshot(racks, order, samples, public)), "summary"@)->0;
            &&& member(c, "servers_total"@) == Some(shown_int(order.len() as int))
            &&& member(c, "servers_up"@) == Some(
                shown_int(places_up(order, samples).len() as int),
            )
            &&& member(c, "gpus_total"@) == Some(
                shown_int(places(Which::All, order, samples).len() as int),
            )
            &&& member(c, "gpus_busy"@) == Some(
                shown_int(places(Which::Working, order, samples).len() as int),
            )
            &&& member(c, "gpus_free"@) == Some(
                shown_int(places(Which::Idle, order, samples).len() as int),
            )
        }),
{
    let n = order.len() as int;
    lemma_snapshot_reads(racks, order, samples, public);
    lemma_counts_cards(order, samples);
    lemma_counts_servers(order, samples);
    let total = crate::model::gpu_count(order, samples, n) as int;
    let busy = crate::model::gpu_busy_count(order, samples, n) as int;
    lemma_count_members(
        num(n),
        num(crate::model::up_count(order, samples, n) as int),
        num(total),
        num(busy),
        num(total - busy),
    );
    let m = counts_value(order, samples)->Obj_0;
    lemma_member_back(m, "servers_total"@);
    lemma_member_back(m, "servers_up"@);
    lemma_member_back(m, "gpus_total"@);
    lemma_member_back(m, "gpus_busy"@);
    lemma_member_back(m, "gpus_free"@);
    lemma_whole_members(
        num(oldest_ts(order, samples, n) as int),
        num(1),
        Json::Arr(racks.map_values(|r: Rack| rack_value(r))),
        counts_value(order, samples),
        Json::Arr(order.map_values(|s: &Server| listed_value(*s, samples, public))),
        public,
    );
    lemma_member_back(snapshot_value(racks, order, samples, public)->Obj_0, "summary"@);
}

#[verifier::rlimit(60)]
proof fn lemma_snapshot_parts(
    racks: Seq<Rack>,
    order: Seq<&Server>,
    samples: Seq<(Seq<char>, Sample)>,
    public: bool,
)
    requires
        is_writable(snapshot_value(racks, order, samples, public)),
    ensures
        ({
            let o = said(snapshot(racks, order, samples, public));
            let rs = Json::Arr(racks.map_values(|r: Rack| rack_value(r)));
            let vs = Json::Arr(order.map_values(|s: &Server| listed_value(*s, samples, public)));
            &&& member(o, "servers"@) == Some(read_back(vs))
            &&& member(o, "racks"@) == Some(read_back(rs))
            &&& member(o, "redacted"@) == if public {
                Some(Json::Bool(true))
            } else {
                None
            }
            &&& member(o, "generated_at"@) == Some(
                shown_int(oldest_ts(order, samples, order.len() as int) as int),
            )
            &&& is_writable(rs)
            &&& is_writable(vs)
        }),
{
    let n = order.len() as int;
    lemma_snapshot_reads(racks, order, samples, public);
    let rs = Json::Arr(racks.map_values(|r: Rack| rack_value(r)));
    let vs = Json::Arr(order.map_values(|s: &Server| listed_value(*s, samples, public)));
    let m = snapshot_value(racks, order, samples, public)->Obj_0;
    lemma_whole_members(
        num(oldest_ts(order, samples, n) as int),
        num(1),
        rs,
        counts_value(order, samples),
        vs,
        public,
    );
    lemma_member_back(m, "servers"@);
    lemma_member_back(m, "racks"@);
    lemma_member_back(m, "redacted"@);
    lemma_member_back(m, "generated_at"@);
    assert(m[4].1 == vs);
    assert(m[2].1 == rs);
    assert(is_writable(m[4].1) && is_writable(m[2].1));
}

/// The law of the servers in the snapshot: every one is there, in its order, as its own text
/// says; one that has no sample is there too.
#[verifier::rlimit(60)]
pub proof fn lemma_snapshot_servers(
    racks: Seq<Rack>,
    order: Seq<&Server>,
    samples: Seq<(Seq<char>, Sample)>,
    public: bool,
    i: int,
)
    requires
        is_writable(snapshot_value(racks, order, samples, public)),
        0 <= i < order.len(),
    ensures
        member(said(snapshot(racks, order, samples, public)), "servers"@) matches Some(
            Json::Arr(a),
        ) && a.len() == order.len() && a[i] == said(
            match lookup(samples, order[i].name@) {
                Some(d) => server_text(*order[i], d, public),
                None => pending_text(*order[i], public),
            },
        ),
        match lookup(samples, order[i].name@) {
            Some(d) => is_writable(server_value(*order[i], d, public)),
            None => is_writable(pending_value(*order[i], public)),
        },
{
    lemma_snapshot_parts(racks, order, samples, public);
    let vs = order.map_values(|s: &Server| listed_value(*s, samples, public));
    lemma_elements_back(vs, vs.len() as int);
    assert(is_writable(vs[i]));
    lemma_listed(*order[i], samples, public);
    lemma_json_round_trip(vs[i]);
}

/// The law of the rest of the snapshot: every rack is there, in its order, as its own text says;
/// the mark that it is redacted is there just where it is public.
#[verifier::rlimit(60)]
pub proof fn lemma_snapshot_racks(
    racks: Seq<Rack>,
    order: Seq<&Server>,
    samples: Seq<(Seq<char>, Sample)>,
    public: bool,
)
    requires
        is_writable(snapshot_value(racks, order, samples, public)),
    ensures
        member(said(snapshot(racks, order, samples, public)), "redacted"@) == if public {
            Some(Json::Bool(true))
        } else {
            None
        },
        member(said(snapshot(racks, order, samples, public)), "racks"@) matches Some(Json::Arr(a))
            && a.len() == racks.len() && forall|i: int|
            0 <= i < a.len() ==> #[trigger] a[i] == said(rack_text(racks[i])),
{
    lemma_snapshot_parts(racks, order, samples, public);
    let rs = racks.map_values(|r: Rack| rack_value(r));
    lemma_elements_back(rs, rs.len() as int);
    assert forall|i: int| 0 <= i < rs.len() implies (#[trigger] elements_back(
        rs,
        rs.len() as int,
    )[i]) == said(rack_text(racks[i])) by {
        assert(is_writable(rs[i]));
        lemma_rack(racks[i]);
        lemma_json_round_trip(rs[i]);
    }
}

/// The time in the snapshot is that of the oldest sample of its servers, or zero where none of
/// them has one.
#[verifier::rlimit(60)]
pub proof fn lemma_snapshot_time(
    racks: Seq<Rack>,
    order: Seq<&Server>,
    samples: Seq<(Seq<char>, Sample)>,
    public: bool,
) -> (t: u64)
    requires
        is_writable(snapshot_value(racks, order, samples, public)),
    ensures
        member(said(snapshot(racks, order, samples, public)), "generated_at"@) == Some(
            shown_int(t as int),
        ),
        forall|i: int|
            0 <= i < order.len() && lookup(samples, (#[trigger] order[i]).name@) is Some && lookup(
                samples,
                order[i].name@,
            )->0.ts > 0 ==> 0 < t <= lookup(samples, order[i].name@)->0.ts,
        t > 0 ==> exists|i: int|
            0 <= i < order.len() && lookup(samples, (#[trigger] order[i]).name@) is Some && lookup(
                samples,
                order[i].name@,
            )->0.ts == t,
{
    lemma_snapshot_parts(racks, order, samples, public);
    lemma_oldest(order, samples);
    oldest_ts(order, samples, order.len() as int)
}

/// A rack says its room, its short name and its slots.
#[verifier::rlimit(60)]
pub proof fn lemma_rack_says(r: Rack)
    ensures
        parsed_json(rack_text(r)) is Ok,
        member(said(rack_text(r)), "room"@) == Some(Json::Str(r.room@)),
        member(said(rack_text(r)), "short"@) == Some(Json::Str(r.short@)),
        member(said(rack_text(r)), "slots"@) matches Some(Json::Arr(a)) && a.len()
            == r.slots@.len() && forall|i: int|
            0 <= i < a.len() ==> #[trigger] a[i] == Json::Str(r.slots@[i]@),
{
    let m = rack_value(r)->Obj_0;
    let ss = r.slots@.map_values(|s: String| Json::Str(s@));
    assert(m.len() == 3);
    assert(m[0].0 == "room"@ && m[1].0 == "short"@ && m[2].0 == "slots"@);
    assert(is_writable(m[2].1)) by {
        assert forall|i: int| 0 <= i < ss.len() implies is_writable(#[trigger] ss[i]) by {}
    }
    assert forall|i: int| 0 <= i < m.len() implies is_writable((#[trigger] m[i]).1) by {
        assert(i == 0 || i == 1 || i == 2);
    }
    assert(is_writable(rack_value(r)));
    lemma_rack(r);
    lemma_json_round_trip(rack_value(r));
    reveal_strlit("room");
    reveal_strlit("short");
    reveal_strlit("slots");
    assert("room"@.len() == 4);
    assert("short"@.len() == 5);
    assert("slots"@.len() == 5);
    assert("short"@[1] != "slots"@[1]);
    lemma_step(m, 3, "room"@);
    lemma_step(m, 2, "room"@);
    lemma_step(m, 1, "room"@);
    lemma_member_back(m, "room"@);
    lemma_step(m, 3, "short"@);
    lemma_step(m, 2, "short"@);
    lemma_member_back(m, "short"@);
    lemma_step(m, 3, "slots"@);
    lemma_member_back(m, "slots"@);
    lemma_elements_back(ss, ss.len() as int);
}

} // verus!
