//! What a configuration that is written down is read as.

use vstd::prelude::*;
use crate::decimal::dec;
use crate::double::{lemma_whole_exact, one, saturated, truncated, whole};
use crate::json::{member, parsed_json, Json};
use crate::model::{
    array_member, is_address, is_config, is_rack, is_server, pinned_to_name, texts_in, Config, Rack,
    Server,
};
use crate::places::lemma_whole_written;
use crate::published::{lemma_plain_number, num};
use crate::said::{last_value, lemma_elements_back, lemma_member_back, lemma_step};
use crate::text::{is_digit, lemma_numeral_digits, numeral, views};
use crate::written::{
    elements_back, is_writable, is_writable_num, json_text, lemma_json_round_trip, num_back,
    read_back,
};

verus! {

broadcast use vstd::string::group_string_axioms;

// ---------------------------------------------------------------- a server

/// A server, written down.
pub open spec fn server_object(s: Server) -> Seq<(Seq<char>, Json)> {
    seq![
        ("name"@, Json::Str(s.name@)),
        ("host"@, Json::Str(s.host@)),
        ("port"@, num(s.port as int)),
        ("gpu"@, Json::Str(s.gpu_model@)),
        ("n_gpu"@, num(s.n_gpu as int)),
        ("loc"@, Json::Str(s.loc@)),
        (
            "identity"@,
            match s.identity {
                Some(t) => Json::Str(t@),
                None => Json::Null,
            },
        ),
        ("enabled"@, Json::Bool(s.enabled)),
        ("pin_address"@, Json::Bool(s.pin_address)),
        ("note"@, Json::Str(s.note@)),
    ]
}

/// Whether two servers say the same.
pub open spec fn same_server(t: Server, s: Server) -> bool {
    &&& t.name@ == s.name@
    &&& t.host@ == s.host@
    &&& t.port == s.port
    &&& t.gpu_model@ == s.gpu_model@
    &&& t.n_gpu == s.n_gpu
    &&& t.loc@ == s.loc@
    &&& t.identity is Some == s.identity is Some
    &&& s.identity is Some ==> t.identity->0@ == s.identity->0@
    &&& t.enabled == s.enabled
    &&& t.pin_address == s.pin_address
    &&& t.note@ == s.note@
}

/// What is small enough to be written as it is.
pub open spec fn few(n: int) -> bool {
    0 <= n < 1_000_000_000_000_000
}

#[verifier::rlimit(40)]
proof fn lemma_server_keys(m: Seq<(Seq<char>, Json)>)
    requires
        m.len() == 10,
        m[0].0 == "name"@,
        m[1].0 == "host"@,
        m[2].0 == "port"@,
        m[3].0 == "gpu"@,
        m[4].0 == "n_gpu"@,
        m[5].0 == "loc"@,
        m[6].0 == "identity"@,
        m[7].0 == "enabled"@,
        m[8].0 == "pin_address"@,
        m[9].0 == "note"@,
    ensures
        member(read_back(Json::Obj(m)), "name"@) == Some(read_back(m[0].1)),
        member(read_back(Json::Obj(m)), "host"@) == Some(read_back(m[1].1)),
        member(read_back(Json::Obj(m)), "port"@) == Some(read_back(m[2].1)),
        member(read_back(Json::Obj(m)), "gpu"@) == Some(read_back(m[3].1)),
        member(read_back(Json::Obj(m)), "n_gpu"@) == Some(read_back(m[4].1)),
        member(read_back(Json::Obj(m)), "loc"@) == Some(read_back(m[5].1)),
        member(read_back(Json::Obj(m)), "identity"@) == Some(read_back(m[6].1)),
        member(read_back(Json::Obj(m)), "enabled"@) == Some(read_back(m[7].1)),
        member(read_back(Json::Obj(m)), "pin_address"@) == Some(read_back(m[8].1)),
        member(read_back(Json::Obj(m)), "note"@) == Some(read_back(m[9].1)),
{
    reveal_strlit("name");
    reveal_strlit("host");
    reveal_strlit("port");
    reveal_strlit("gpu");
    reveal_strlit("n_gpu");
    reveal_strlit("loc");
    reveal_strlit("identity");
    reveal_strlit("enabled");
    reveal_strlit("pin_address");
    reveal_strlit("note");
    assert("name"@.len() == 4);
    assert("host"@.len() == 4);
    assert("port"@.len() == 4);
    assert("gpu"@.len() == 3);
    assert("n_gpu"@.len() == 5);
    assert("loc"@.len() == 3);
    assert("identity"@.len() == 8);
    assert("enabled"@.len() == 7);
    assert("pin_address"@.len() == 11);
    assert("note"@.len() == 4);
    assert("name"@[0] != "host"@[0]);
    assert("name"@[0] != "port"@[0]);
    assert("name"@[1] != "note"@[1]);
    assert("host"@[0] != "port"@[0]);
    assert("host"@[0] != "note"@[0]);
    assert("port"@[0] != "note"@[0]);
    assert("gpu"@[0] != "loc"@[0]);
    lemma_member_back(m, "name"@);
    assert(last_value(m, "name"@) == Some(m[0].1)) by {
        lemma_step(m, 10, "name"@);
        lemma_step(m, 9, "name"@);
        lemma_step(m, 8, "name"@);
        lemma_step(m, 7, "name"@);
        lemma_step(m, 6, "name"@);
        lemma_step(m, 5, "name"@);
        lemma_step(m, 4, "name"@);
        lemma_step(m, 3, "name"@);
        lemma_step(m, 2, "name"@);
        lemma_step(m, 1, "name"@);
    }
    lemma_member_back(m, "host"@);
    assert(last_value(m, "host"@) == Some(m[1].1)) by {
        lemma_step(m, 10, "host"@);
        lemma_step(m, 9, "host"@);
        lemma_step(m, 8, "host"@);
        lemma_step(m, 7, "host"@);
        lemma_step(m, 6, "host"@);
        lemma_step(m, 5, "host"@);
        lemma_step(m, 4, "host"@);
        lemma_step(m, 3, "host"@);
        lemma_step(m, 2, "host"@);
    }
    lemma_member_back(m, "port"@);
    assert(last_value(m, "port"@) == Some(m[2].1)) by {
        lemma_step(m, 10, "port"@);
        lemma_step(m, 9, "port"@);
        lemma_step(m, 8, "port"@);
        lemma_step(m, 7, "port"@);
        lemma_step(m, 6, "port"@);
        lemma_step(m, 5, "port"@);
        lemma_step(m, 4, "port"@);
        lemma_step(m, 3, "port"@);
    }
    lemma_member_back(m, "gpu"@);
    assert(last_value(m, "gpu"@) == Some(m[3].1)) by {
        lemma_step(m, 10, "gpu"@);
        lemma_step(m, 9, "gpu"@);
        lemma_step(m, 8, "gpu"@);
        lemma_step(m, 7, "gpu"@);
        lemma_step(m, 6, "gpu"@);
        lemma_step(m, 5, "gpu"@);
        lemma_step(m, 4, "gpu"@);
    }
    lemma_member_back(m, "n_gpu"@);
    assert(last_value(m, "n_gpu"@) == Some(m[4].1)) by {
        lemma_step(m, 10, "n_gpu"@);
        lemma_step(m, 9, "n_gpu"@);
        lemma_step(m, 8, "n_gpu"@);
        lemma_step(m, 7, "n_gpu"@);
        lemma_step(m, 6, "n_gpu"@);
        lemma_step(m, 5, "n_gpu"@);
    }
    lemma_member_back(m, "loc"@);
    assert(last_value(m, "loc"@) == Some(m[5].1)) by {
        lemma_step(m, 10, "loc"@);
        lemma_step(m, 9, "loc"@);
        lemma_step(m, 8, "loc"@);
        lemma_step(m, 7, "loc"@);
        lemma_step(m, 6, "loc"@);
    }
    lemma_member_back(m, "identity"@);
    assert(last_value(m, "identity"@) == Some(m[6].1)) by {
        lemma_step(m, 10, "identity"@);
        lemma_step(m, 9, "identity"@);
        lemma_step(m, 8, "identity"@);
        lemma_step(m, 7, "identity"@);
    }
    lemma_member_back(m, "enabled"@);
    assert(last_value(m, "enabled"@) == Some(m[7].1)) by {
        lemma_step(m, 10, "enabled"@);
        lemma_step(m, 9, "enabled"@);
        lemma_step(m, 8, "enabled"@);
    }
    lemma_member_back(m, "pin_address"@);
    assert(last_value(m, "pin_address"@) == Some(m[8].1)) by {
        lemma_step(m, 10, "pin_address"@);
        lemma_step(m, 9, "pin_address"@);
    }
    lemma_member_back(m, "note"@);
    assert(last_value(m, "note"@) == Some(m[9].1)) by {
        lemma_step(m, 10, "note"@);
    }
}

proof fn lemma_few(n: int, hi: int)
    requires
        few(n),
        n <= hi,
    ensures
        read_back(num(n)) == Json::Num(whole(n)),
        saturated(whole(n), 0, hi) == n,
        saturated(whole(n), i64::MIN as int, hi) == n,
        is_writable(num(n)),
{
    lemma_whole_written(n as nat);
    lemma_plain_number(n as nat);
    lemma_whole_exact(n as nat);
    vstd::arithmetic::power2::lemma_pow2_pos(1074);
    let u = one() as int;
    assert(whole(n).size() == n * u);
    assert((n * u) / u == n) by {
        vstd::arithmetic::div_mod::lemma_div_multiples_vanish(n, u);
        vstd::arithmetic::mul::lemma_mul_is_commutative(n, u);
    }
    assert(truncated(whole(n)) == n);
}

/// A server that is written down is read as it was.
#[verifier::rlimit(60)]
pub proof fn lemma_server_reads(s: Server, t: Server)
    requires
        few(s.n_gpu as int),
        is_server(t, read_back(Json::Obj(server_object(s)))),
    ensures
        same_server(t, s),
{
    let m = server_object(s);
    lemma_server_keys(m);
    lemma_few(s.port as int, u16::MAX as int);
    lemma_few(s.n_gpu as int, usize::MAX as int);
}

#[verifier::rlimit(60)]
proof fn lemma_server_written(s: Server)
    requires
        few(s.n_gpu as int),
    ensures
        is_writable(Json::Obj(server_object(s))),
{
    let m = server_object(s);
    lemma_few(s.port as int, u16::MAX as int);
    lemma_few(s.n_gpu as int, usize::MAX as int);
    assert forall|i: int| 0 <= i < m.len() implies is_writable((#[trigger] m[i]).1) by {
        assert(i == 0 || i == 1 || i == 2 || i == 3 || i == 4 || i == 5 || i == 6 || i == 7 || i == 8
            || i == 9);
    }
}

// ---------------------------------------------------------------- a rack

/// Texts, written down.
pub open spec fn text_array(ts: Seq<Seq<char>>) -> Json {
    Json::Arr(Seq::new(ts.len(), |i: int| Json::Str(ts[i])))
}

/// A rack, written down.
pub open spec fn rack_object(r: Rack) -> Seq<(Seq<char>, Json)> {
    seq![
        ("room"@, Json::Str(r.room@)),
        ("short"@, Json::Str(r.short@)),
        ("slots"@, text_array(views(r.slots@))),
    ]
}

#[verifier::rlimit(40)]
proof fn lemma_rack_keys(m: Seq<(Seq<char>, Json)>)
    requires
        m.len() == 3,
        m[0].0 == "room"@,
        m[1].0 == "short"@,
        m[2].0 == "slots"@,
    ensures
        member(read_back(Json::Obj(m)), "room"@) == Some(read_back(m[0].1)),
        member(read_back(Json::Obj(m)), "short"@) == Some(read_back(m[1].1)),
        member(read_back(Json::Obj(m)), "slots"@) == Some(read_back(m[2].1)),
{
    reveal_strlit("room");
    reveal_strlit("short");
    reveal_strlit("slots");
    assert("room"@.len() == 4);
    assert("short"@.len() == 5);
    assert("slots"@.len() == 5);
    assert("short"@[1] != "slots"@[1]);
    lemma_member_back(m, "room"@);
    assert(last_value(m, "room"@) == Some(m[0].1)) by {
        lemma_step(m, 3, "room"@);
        lemma_step(m, 2, "room"@);
        lemma_step(m, 1, "room"@);
    }
    lemma_member_back(m, "short"@);
    assert(last_value(m, "short"@) == Some(m[1].1)) by {
        lemma_step(m, 3, "short"@);
        lemma_step(m, 2, "short"@);
    }
    lemma_member_back(m, "slots"@);
    assert(last_value(m, "slots"@) == Some(m[2].1)) by {
        lemma_step(m, 3, "slots"@);
    }
}

proof fn lemma_texts_back(ts: Seq<Seq<char>>, k: int)
    requires
        0 <= k <= ts.len(),
    ensures
        texts_in(elements_back(text_array(ts)->Arr_0, k)) == ts.take(k),
    decreases k,
{
    let a = text_array(ts)->Arr_0;
    if k > 0 {
        lemma_texts_back(ts, k - 1);
        let e = elements_back(a, k);
        assert(a[k - 1] == Json::Str(ts[k - 1]));
        assert(read_back(a[k - 1]) == a[k - 1]);
        assert(e == elements_back(a, k - 1).push(read_back(a[k - 1])));
        assert(e.drop_last() =~= elements_back(a, k - 1));
        assert(e.last() == Json::Str(ts[k - 1]));
        assert(ts.take(k - 1).push(ts[k - 1]) =~= ts.take(k));
    } else {
        assert(ts.take(0) =~= Seq::<Seq<char>>::empty());
    }
}

/// A rack that is written down is read as it was, slot by slot.
pub proof fn lemma_rack_reads(r: Rack, t: Rack)
    requires
        is_rack(t, read_back(Json::Obj(rack_object(r)))),
    ensures
        t.room@ == r.room@,
        t.short@ == r.short@,
        views(t.slots@) == views(r.slots@),
{
    let m = rack_object(r);
    lemma_rack_keys(m);
    let ts = views(r.slots@);
    lemma_texts_back(ts, ts.len() as int);
    assert(ts.take(ts.len() as int) =~= ts);
    assert(views(t.slots@) =~= t.slots@.map_values(|s: String| s@));
}

proof fn lemma_rack_written(r: Rack)
    ensures
        is_writable(Json::Obj(rack_object(r))),
{
    let m = rack_object(r);
    let a = text_array(views(r.slots@))->Arr_0;
    assert forall|i: int| 0 <= i < a.len() implies is_writable(#[trigger] a[i]) by {}
    assert forall|i: int| 0 <= i < m.len() implies is_writable((#[trigger] m[i]).1) by {
        assert(i == 0 || i == 1 || i == 2);
    }
}

// ---------------------------------------------------------------- the whole

/// Servers, written down.
pub open spec fn servers_array(ss: Seq<Server>) -> Json {
    Json::Arr(Seq::new(ss.len(), |i: int| Json::Obj(server_object(ss[i]))))
}

/// Racks, written down.
pub open spec fn racks_array(rs: Seq<Rack>) -> Json {
    Json::Arr(Seq::new(rs.len(), |i: int| Json::Obj(rack_object(rs[i]))))
}

/// A configuration, written down.
pub open spec fn config_object(c: Config) -> Seq<(Seq<char>, Json)> {
    seq![
        ("ssh_user"@, Json::Str(c.ssh_user@)),
        ("public_mode"@, Json::Bool(c.public_mode)),
        ("min_ssh_interval_sec"@, Json::Num(c.min_gap)),
        ("ssh_rate_window_sec"@, Json::Num(c.window)),
        ("ssh_max_per_window"@, num(c.max_per_window as int)),
        ("ssh_connect_timeout"@, num(c.connect_timeout as int)),
        ("power_history_points"@, num(c.power_points as int)),
        ("power_log"@, Json::Bool(c.power_log)),
        ("stats_period_sec"@, num(c.stats_period as int)),
        ("stats_keep_days"@, num(c.stats_keep_days as int)),
        ("servers"@, servers_array(c.servers@)),
        ("racks"@, racks_array(c.racks@)),
    ]
}

/// Whether the numbers of a configuration can be written as they are.
pub open spec fn is_plain_config(c: Config) -> bool {
    &&& few(c.max_per_window as int)
    &&& few(c.connect_timeout as int)
    &&& few(c.power_points as int)
    &&& few(c.stats_keep_days as int)
    &&& forall|i: int| 0 <= i < c.servers@.len() ==> few((#[trigger] c.servers@[i]).n_gpu as int)
    &&& c.min_gap.finite() && is_writable_num(c.min_gap)
    &&& c.window.finite() && is_writable_num(c.window)
}

#[verifier::rlimit(40)]
proof fn lemma_config_keys(m: Seq<(Seq<char>, Json)>)
    requires
        m.len() == 12,
        m[0].0 == "ssh_user"@,
        m[1].0 == "public_mode"@,
        m[2].0 == "min_ssh_interval_sec"@,
        m[3].0 == "ssh_rate_window_sec"@,
        m[4].0 == "ssh_max_per_window"@,
        m[5].0 == "ssh_connect_timeout"@,
        m[6].0 == "power_history_points"@,
        m[7].0 == "power_log"@,
        m[8].0 == "stats_period_sec"@,
        m[9].0 == "stats_keep_days"@,
        m[10].0 == "servers"@,
        m[11].0 == "racks"@,
    ensures
        member(read_back(Json::Obj(m)), "ssh_user"@) == Some(read_back(m[0].1)),
        member(read_back(Json::Obj(m)), "public_mode"@) == Some(read_back(m[1].1)),
        member(read_back(Json::Obj(m)), "min_ssh_interval_sec"@) == Some(read_back(m[2].1)),
        member(read_back(Json::Obj(m)), "ssh_rate_window_sec"@) == Some(read_back(m[3].1)),
        member(read_back(Json::Obj(m)), "ssh_max_per_window"@) == Some(read_back(m[4].1)),
        member(read_back(Json::Obj(m)), "ssh_connect_timeout"@) == Some(read_back(m[5].1)),
        member(read_back(Json::Obj(m)), "power_history_points"@) == Some(read_back(m[6].1)),
        member(read_back(Json::Obj(m)), "power_log"@) == Some(read_back(m[7].1)),
        member(read_back(Json::Obj(m)), "stats_period_sec"@) == Some(read_back(m[8].1)),
        member(read_back(Json::Obj(m)), "stats_keep_days"@) == Some(read_back(m[9].1)),
        member(read_back(Json::Obj(m)), "servers"@) == Some(read_back(m[10].1)),
        member(read_back(Json::Obj(m)), "racks"@) == Some(read_back(m[11].1)),
{
    reveal_strlit("ssh_user");
    reveal_strlit("public_mode");
    reveal_strlit("min_ssh_interval_sec");
    reveal_strlit("ssh_rate_window_sec");
    reveal_strlit("ssh_max_per_window");
    reveal_strlit("ssh_connect_timeout");
    reveal_strlit("power_history_points");
    reveal_strlit("power_log");
    reveal_strlit("stats_period_sec");
    reveal_strlit("stats_keep_days");
    reveal_strlit("servers");
    reveal_strlit("racks");
    assert("ssh_user"@.len() == 8);
    assert("public_mode"@.len() == 11);
    assert("min_ssh_interval_sec"@.len() == 20);
    assert("ssh_rate_window_sec"@.len() == 19);
    assert("ssh_max_per_window"@.len() == 18);
    assert("ssh_connect_timeout"@.len() == 19);
    assert("power_history_points"@.len() == 20);
    assert("power_log"@.len() == 9);
    assert("stats_period_sec"@.len() == 16);
    assert("stats_keep_days"@.len() == 15);
    assert("servers"@.len() == 7);
    assert("racks"@.len() == 5);
    assert("min_ssh_interval_sec"@[0] != "power_history_points"@[0]);
    assert("ssh_rate_window_sec"@[4] != "ssh_connect_timeout"@[4]);
    lemma_member_back(m, "ssh_user"@);
    assert(last_value(m, "ssh_user"@) == Some(m[0].1)) by {
        lemma_step(m, 12, "ssh_user"@);
        lemma_step(m, 11, "ssh_user"@);
        lemma_step(m, 10, "ssh_user"@);
        lemma_step(m, 9, "ssh_user"@);
        lemma_step(m, 8, "ssh_user"@);
        lemma_step(m, 7, "ssh_user"@);
        lemma_step(m, 6, "ssh_user"@);
        lemma_step(m, 5, "ssh_user"@);
        lemma_step(m, 4, "ssh_user"@);
        lemma_step(m, 3, "ssh_user"@);
        lemma_step(m, 2, "ssh_user"@);
        lemma_step(m, 1, "ssh_user"@);
    }
    lemma_member_back(m, "public_mode"@);
    assert(last_value(m, "public_mode"@) == Some(m[1].1)) by {
        lemma_step(m, 12, "public_mode"@);
        lemma_step(m, 11, "public_mode"@);
        lemma_step(m, 10, "public_mode"@);
        lemma_step(m, 9, "public_mode"@);
        lemma_step(m, 8, "public_mode"@);
        lemma_step(m, 7, "public_mode"@);
        lemma_step(m, 6, "public_mode"@);
        lemma_step(m, 5, "public_mode"@);
        lemma_step(m, 4, "public_mode"@);
        lemma_step(m, 3, "public_mode"@);
        lemma_step(m, 2, "public_mode"@);
    }
    lemma_member_back(m, "min_ssh_interval_sec"@);
    assert(last_value(m, "min_ssh_interval_sec"@) == Some(m[2].1)) by {
        lemma_step(m, 12, "min_ssh_interval_sec"@);
        lemma_step(m, 11, "min_ssh_interval_sec"@);
        lemma_step(m, 10, "min_ssh_interval_sec"@);
        lemma_step(m, 9, "min_ssh_interval_sec"@);
        lemma_step(m, 8, "min_ssh_interval_sec"@);
        lemma_step(m, 7, "min_ssh_interval_sec"@);
        lemma_step(m, 6, "min_ssh_interval_sec"@);
        lemma_step(m, 5, "min_ssh_interval_sec"@);
        lemma_step(m, 4, "min_ssh_interval_sec"@);
        lemma_step(m, 3, "min_ssh_interval_sec"@);
    }
    lemma_member_back(m, "ssh_rate_window_sec"@);
    assert(last_value(m, "ssh_rate_window_sec"@) == Some(m[3].1)) by {
        lemma_step(m, 12, "ssh_rate_window_sec"@);
        lemma_step(m, 11, "ssh_rate_window_sec"@);
        lemma_step(m, 10, "ssh_rate_window_sec"@);
        lemma_step(m, 9, "ssh_rate_window_sec"@);
        lemma_step(m, 8, "ssh_rate_window_sec"@);
        lemma_step(m, 7, "ssh_rate_window_sec"@);
        lemma_step(m, 6, "ssh_rate_window_sec"@);
        lemma_step(m, 5, "ssh_rate_window_sec"@);
        lemma_step(m, 4, "ssh_rate_window_sec"@);
    }
    lemma_member_back(m, "ssh_max_per_window"@);
    assert(last_value(m, "ssh_max_per_window"@) == Some(m[4].1)) by {
        lemma_step(m, 12, "ssh_max_per_window"@);
        lemma_step(m, 11, "ssh_max_per_window"@);
        lemma_step(m, 10, "ssh_max_per_window"@);
        lemma_step(m, 9, "ssh_max_per_window"@);
        lemma_step(m, 8, "ssh_max_per_window"@);
        lemma_step(m, 7, "ssh_max_per_window"@);
        lemma_step(m, 6, "ssh_max_per_window"@);
        lemma_step(m, 5, "ssh_max_per_window"@);
    }
    lemma_member_back(m, "ssh_connect_timeout"@);
    assert(last_value(m, "ssh_connect_timeout"@) == Some(m[5].1)) by {
        lemma_step(m, 12, "ssh_connect_timeout"@);
        lemma_step(m, 11, "ssh_connect_timeout"@);
        lemma_step(m, 10, "ssh_connect_timeout"@);
        lemma_step(m, 9, "ssh_connect_timeout"@);
        lemma_step(m, 8, "ssh_connect_timeout"@);
        lemma_step(m, 7, "ssh_connect_timeout"@);
        lemma_step(m, 6, "ssh_connect_timeout"@);
    }
    lemma_member_back(m, "power_history_points"@);
    assert(last_value(m, "power_history_points"@) == Some(m[6].1)) by {
        lemma_step(m, 12, "power_history_points"@);
        lemma_step(m, 11, "power_history_points"@);
        lemma_step(m, 10, "power_history_points"@);
        lemma_step(m, 9, "power_history_points"@);
        lemma_step(m, 8, "power_history_points"@);
        lemma_step(m, 7, "power_history_points"@);
    }
    lemma_member_back(m, "power_log"@);
    assert(last_value(m, "power_log"@) == Some(m[7].1)) by {
        lemma_step(m, 12, "power_log"@);
        lemma_step(m, 11, "power_log"@);
        lemma_step(m, 10, "power_log"@);
        lemma_step(m, 9, "power_log"@);
        lemma_step(m, 8, "power_log"@);
    }
    lemma_member_back(m, "stats_period_sec"@);
    assert(last_value(m, "stats_period_sec"@) == Some(m[8].1)) by {
        lemma_step(m, 12, "stats_period_sec"@);
        lemma_step(m, 11, "stats_period_sec"@);
        lemma_step(m, 10, "stats_period_sec"@);
        lemma_step(m, 9, "stats_period_sec"@);
    }
    lemma_member_back(m, "stats_keep_days"@);
    assert(last_value(m, "stats_keep_days"@) == Some(m[9].1)) by {
        lemma_step(m, 12, "stats_keep_days"@);
        lemma_step(m, 11, "stats_keep_days"@);
        lemma_step(m, 10, "stats_keep_days"@);
    }
    lemma_member_back(m, "servers"@);
    assert(last_value(m, "servers"@) == Some(m[10].1)) by {
        lemma_step(m, 12, "servers"@);
        lemma_step(m, 11, "servers"@);
    }
    lemma_member_back(m, "racks"@);
    assert(last_value(m, "racks"@) == Some(m[11].1)) by {
        lemma_step(m, 12, "racks"@);
    }
}

#[verifier::rlimit(60)]
proof fn lemma_config_written(c: Config)
    requires
        is_plain_config(c),
    ensures
        is_writable(Json::Obj(config_object(c))),
{
    let m = config_object(c);
    lemma_few(c.max_per_window as int, usize::MAX as int);
    lemma_few(c.connect_timeout as int, u64::MAX as int);
    lemma_few(c.power_points as int, usize::MAX as int);
    lemma_few(c.stats_period as int, u32::MAX as int);
    lemma_few(c.stats_keep_days as int, i64::MAX as int);
    let a = servers_array(c.servers@)->Arr_0;
    assert forall|i: int| 0 <= i < a.len() implies is_writable(#[trigger] a[i]) by {
        assert(few(c.servers@[i].n_gpu as int));
        lemma_server_written(c.servers@[i]);
    }
    let b = racks_array(c.racks@)->Arr_0;
    assert forall|i: int| 0 <= i < b.len() implies is_writable(#[trigger] b[i]) by {
        lemma_rack_written(c.racks@[i]);
    }
    assert(is_writable(servers_array(c.servers@)));
    assert(is_writable(racks_array(c.racks@)));
    assert forall|i: int| 0 <= i < m.len() implies is_writable((#[trigger] m[i]).1) by {
        assert(i == 0 || i == 1 || i == 2 || i == 3 || i == 4 || i == 5 || i == 6 || i == 7 || i == 8
            || i == 9 || i == 10 || i == 11);
    }
}

proof fn lemma_servers_read(ss: Seq<Server>, ts: Seq<Server>, j: Json)
    requires
        forall|i: int| 0 <= i < ss.len() ==> few((#[trigger] ss[i]).n_gpu as int),
        j == read_back(servers_array(ss)),
        ts.len() == j->Arr_0.len(),
        forall|i: int| 0 <= i < ts.len() ==> is_server(#[trigger] ts[i], j->Arr_0[i]),
    ensures
        ts.len() == ss.len(),
        forall|i: int| 0 <= i < ss.len() ==> same_server(#[trigger] ts[i], ss[i]),
{
    let a = servers_array(ss)->Arr_0;
    lemma_elements_back(a, a.len() as int);
    let e = elements_back(a, a.len() as int);
    assert(j->Arr_0 == e);
    assert forall|i: int| 0 <= i < ss.len() implies same_server(#[trigger] ts[i], ss[i]) by {
        assert(few(ss[i].n_gpu as int));
        assert(e[i] == read_back(a[i]));
        assert(is_server(ts[i], e[i]));
        lemma_server_reads(ss[i], ts[i]);
    }
}

/// Whether two racks say the same.
pub open spec fn same_rack(t: Rack, r: Rack) -> bool {
    t.room@ == r.room@ && t.short@ == r.short@ && views(t.slots@) == views(r.slots@)
}

proof fn lemma_racks_read(rs: Seq<Rack>, ts: Seq<Rack>, j: Json)
    requires
        j == read_back(racks_array(rs)),
        ts.len() == j->Arr_0.len(),
        forall|i: int| 0 <= i < ts.len() ==> is_rack(#[trigger] ts[i], j->Arr_0[i]),
    ensures
        ts.len() == rs.len(),
        forall|i: int| 0 <= i < rs.len() ==> same_rack(#[trigger] ts[i], rs[i]),
{
    let a = racks_array(rs)->Arr_0;
    lemma_elements_back(a, a.len() as int);
    let e = elements_back(a, a.len() as int);
    assert(j->Arr_0 == e);
    assert forall|i: int| 0 <= i < rs.len() implies same_rack(#[trigger] ts[i], rs[i]) by {
        assert(e[i] == read_back(a[i]));
        assert(is_rack(ts[i], e[i]));
        lemma_rack_reads(rs[i], ts[i]);
    }
}

/// A configuration that is written down can be read, and is read as it was: everything stands
/// under the name that it is written under, server by server and rack by rack.
#[verifier::rlimit(60)]
pub proof fn lemma_config_reads(c: Config, d: Config)
    requires
        is_plain_config(c),
        parsed_json(json_text(Json::Obj(config_object(c)))) is Ok ==> is_config(
            d,
            parsed_json(json_text(Json::Obj(config_object(c))))->Ok_0,
        ),
    ensures
        parsed_json(json_text(Json::Obj(config_object(c)))) is Ok,
        d.ssh_user@ == c.ssh_user@,
        d.public_mode == c.public_mode,
        num_back(c.min_gap) == Json::Num(d.min_gap),
        num_back(c.window) == Json::Num(d.window),
        d.max_per_window == c.max_per_window,
        d.connect_timeout == c.connect_timeout,
        d.power_points == c.power_points,
        d.power_log == c.power_log,
        d.stats_period == c.stats_period,
        d.stats_keep_days == c.stats_keep_days,
        d.servers@.len() == c.servers@.len(),
        forall|i: int|
            0 <= i < c.servers@.len() ==> same_server(#[trigger] d.servers@[i], c.servers@[i]),
        d.racks@.len() == c.racks@.len(),
        forall|i: int|
            0 <= i < c.racks@.len() ==> same_rack(#[trigger] d.racks@[i], c.racks@[i]),
{
    let m = config_object(c);
    let j = read_back(Json::Obj(m));
    lemma_config_written(c);
    lemma_json_round_trip(Json::Obj(m));
    lemma_config_keys(m);
    lemma_few(c.max_per_window as int, usize::MAX as int);
    lemma_few(c.connect_timeout as int, u64::MAX as int);
    lemma_few(c.power_points as int, usize::MAX as int);
    lemma_few(c.stats_period as int, u32::MAX as int);
    lemma_few(c.stats_keep_days as int, i64::MAX as int);
    lemma_servers_read(c.servers@, d.servers@, read_back(m[10].1));
    lemma_racks_read(c.racks@, d.racks@, read_back(m[11].1));
}

/// A configuration that is written down can be read, and lists as many servers as it has.
#[verifier::rlimit(60)]
pub proof fn lemma_written_reads(c: Config)
    requires
        is_plain_config(c),
    ensures
        parsed_json(json_text(Json::Obj(config_object(c)))) is Ok,
        array_member(
            parsed_json(json_text(Json::Obj(config_object(c))))->Ok_0,
            "servers"@,
        ).len() == c.servers@.len(),
{
    let m = config_object(c);
    lemma_config_written(c);
    lemma_json_round_trip(Json::Obj(m));
    lemma_config_keys(m);
    let a = servers_array(c.servers@)->Arr_0;
    lemma_elements_back(a, a.len() as int);
}

proof fn lemma_server_pinned(s: Server)
    ensures
        pinned_to_name(read_back(Json::Obj(server_object(s)))) <==> s.pin_address && !is_address(
            s.host@,
        ),
{
    let m = server_object(s);
    lemma_server_keys(m);
    assert(m[1].1 == Json::Str(s.host@));
    assert(m[8].1 == Json::Bool(s.pin_address));
}

#[verifier::rlimit(60)]
proof fn lemma_server_at(c: Config, i: int)
    requires
        is_plain_config(c),
        0 <= i < c.servers@.len(),
    ensures
        array_member(
            parsed_json(json_text(Json::Obj(config_object(c))))->Ok_0,
            "servers"@,
        )[i] == read_back(Json::Obj(server_object(c.servers@[i]))),
{
    let m = config_object(c);
    lemma_config_written(c);
    lemma_json_round_trip(Json::Obj(m));
    lemma_config_keys(m);
    let a = servers_array(c.servers@)->Arr_0;
    lemma_elements_back(a, a.len() as int);
    let e = elements_back(a, a.len() as int);
    assert(e[i] == read_back(a[i]));
    assert(m[10].1 == servers_array(c.servers@));
}

/// In a configuration that is written down, an address is pinned and yet a name just where the
/// server says that it is pinned and its host has more than digits, points and colons.
pub proof fn lemma_pinned_reads(c: Config, i: int)
    requires
        is_plain_config(c),
        0 <= i < c.servers@.len(),
    ensures
        pinned_to_name(
            array_member(
                parsed_json(json_text(Json::Obj(config_object(c))))->Ok_0,
                "servers"@,
            )[i],
        ) <==> c.servers@[i].pin_address && !is_address(c.servers@[i].host@),
{
    lemma_server_at(c, i);
    lemma_server_pinned(c.servers@[i]);
}

/// Where a configuration does not say otherwise, connections are two and a half seconds apart, no
/// more than five are made in ten seconds and each is given six, the history has 120 points, a
/// row is stored every ten seconds and kept for a year, the log is on, and addresses are hidden.
pub proof fn lemma_left_out(d: Config, j: Json)
    requires
        is_config(d, j),
    ensures
        member(j, "public_mode"@) is None ==> d.public_mode,
        member(j, "power_log"@) is None ==> d.power_log,
        member(j, "ssh_connect_timeout"@) is None ==> d.connect_timeout == 6,
        member(j, "power_history_points"@) is None ==> d.power_points == 120,
        member(j, "stats_period_sec"@) is None ==> d.stats_period == 10,
        member(j, "stats_keep_days"@) is None ==> d.stats_keep_days == 365,
        member(j, "min_ssh_interval_sec"@) is None ==> d.min_gap == dec(25, -1),
        member(j, "ssh_rate_window_sec"@) is None ==> d.window == whole(10),
        member(j, "ssh_max_per_window"@) is None ==> d.max_per_window == 5,
        member(j, "servers"@) is None ==> d.servers@.len() == 0,
        member(j, "racks"@) is None ==> d.racks@.len() == 0,
{
    lemma_few(5, usize::MAX as int);
    lemma_few(6, u64::MAX as int);
    lemma_few(120, usize::MAX as int);
    lemma_few(10, u32::MAX as int);
    lemma_few(365, i64::MAX as int);
}

/// A server that says nothing of it is on, at port 22, and not pinned.
pub proof fn lemma_server_left_out(s: Server, j: Json)
    requires
        is_server(s, j),
    ensures
        member(j, "enabled"@) is None ==> s.enabled,
        member(j, "port"@) is None ==> s.port == 22,
        member(j, "pin_address"@) is None ==> !s.pin_address,
        member(j, "identity"@) is None ==> s.identity is None,
        member(j, "n_gpu"@) is None ==> s.n_gpu == 0,
{
    lemma_few(22, u16::MAX as int);
    lemma_few(0, usize::MAX as int);
}

/// Four numbers with points between them are an address; a text with anything but digits, points
/// and colons is none.
pub proof fn lemma_address(a: u8, b: u8, c: u8, d: u8, t: Seq<char>, i: int)
    ensures
        is_address(
            numeral(a as nat) + seq!['.'] + numeral(b as nat) + seq!['.'] + numeral(c as nat)
                + seq!['.'] + numeral(d as nat),
        ),
        0 <= i < t.len() && !is_digit(t[i]) && t[i] != '.' && t[i] != ':' ==> !is_address(t),
{
    lemma_numeral_digits(a as nat);
    lemma_numeral_digits(b as nat);
    lemma_numeral_digits(c as nat);
    lemma_numeral_digits(d as nat);
    let p = seq!['.'];
    assert(is_address(p));
    assert(is_address(numeral(a as nat)) && is_address(numeral(b as nat)));
    assert(is_address(numeral(c as nat)) && is_address(numeral(d as nat)));
    lemma_address_joined(numeral(a as nat), p);
    let x = numeral(a as nat) + p;
    lemma_address_joined(x, numeral(b as nat));
    lemma_address_joined(x + numeral(b as nat), p);
    let y = x + numeral(b as nat) + p;
    lemma_address_joined(y, numeral(c as nat));
    lemma_address_joined(y + numeral(c as nat), p);
    lemma_address_joined(y + numeral(c as nat) + p, numeral(d as nat));
}

proof fn lemma_address_joined(a: Seq<char>, b: Seq<char>)
    requires
        is_address(a),
        is_address(b),
    ensures
        is_address(a + b),
{
    let s = a + b;
    assert forall|i: int| 0 <= i < s.len() implies is_digit(#[trigger] s[i]) || s[i] == '.' || s[i]
        == ':' by {
        if i < a.len() {
            assert(s[i] == a[i]);
        } else {
            assert(s[i] == b[i - a.len()]);
        }
    }
}

} // verus!
