use hilmon::double::Double;
use hilmon::model::{
    gpu_is_busy, sort_key, write_snapshot, Config, Gpu, Host, Rack, Sample, Server, Status,
};
use hilmon::table::Table;

fn d(x: f64) -> Double {
    Double { bits: x.to_bits() }
}

fn srv(name: &str) -> Server {
    Server {
        name: name.into(),
        host: "10.0.0.1".into(),
        port: 22,
        gpu_model: "3090 24GB".into(),
        n_gpu: 1,
        loc: "301-207".into(),
        identity: None,
        enabled: true,
        pin_address: false,
        note: "출입문 비번 1234".into(),
    }
}

fn config(public_mode: bool) -> Config {
    Config {
        ssh_user: "sukim".into(),
        public_mode,
        min_gap: d(2.5),
        window: d(10.0),
        max_per_window: 5,
        connect_timeout: 6,
        power_points: 120,
        power_log: false,
        stats_period: 10,
        stats_keep_days: 365,
        servers: vec![srv("hi14")],
        racks: vec![],
    }
}

fn ok_sample() -> Sample {
    Sample {
        status: Status::Up,
        error: String::new(),
        ts: 1_700_000_000,
        gpus: vec![Gpu {
            index: 0,
            name: "NVIDIA GeForce RTX 3090".into(),
            util: Some(d(97.0)),
            mem_used: Some(d(21000.0)),
            mem_total: Some(d(24576.0)),
            power: Some(d(249.5)),
            power_limit: Some(d(250.0)),
            temp: Some(d(75.0)),
            fan: Some(d(83.0)),
            procs: vec![d(21000.0)],
        }],
        host: Host { nproc: 48, ..Default::default() },
        watts: Some(d(249.5)),
        watt_history: vec![d(100.0), d(249.5)],
    }
}

#[test]
fn public_payload_leaks_nothing() {
    let cfg = config(true);
    let order = cfg.active();
    let mut m = Table::new();
    m.insert("hi14".to_string(), ok_sample());
    let out = write_snapshot(&cfg, &order, &m, true);
    for needle in ["10.0.0.1", "\"host\"", "\"port\"", "\"note\"", "1234", "sukim"] {
        assert!(!out.contains(needle), "leaked {:?} in {}", needle, out);
    }
    assert!(out.contains("\"redacted\":true"));
    assert!(out.contains("\"util\":97"));
    assert!(out.contains("\"watts\":249.5"));
}

#[test]
fn internal_payload_keeps_diagnostics() {
    let cfg = config(false);
    let order = cfg.active();
    let mut m = Table::new();
    let mut s = ok_sample();
    s.status = Status::Down;
    s.error = "ssh: connect to host 10.0.0.1 port 22: refused".into();
    m.insert("hi14".to_string(), s);
    let out = write_snapshot(&cfg, &order, &m, false);
    assert!(out.contains("10.0.0.1"));
    assert!(out.contains("refused"));
}

#[test]
fn sorts_numerically_not_lexically() {
    let mut names = vec!["hi30", "hi9", "hi14", "hi2"];
    names.sort_by_key(|n| sort_key(n));
    assert_eq!(names, vec!["hi2", "hi9", "hi14", "hi30"]);
}

#[test]
fn busy_matches_the_python_rule() {
    let idle = Gpu { util: Some(d(0.0)), mem_used: Some(d(4.0)), ..Default::default() };
    let warm = Gpu { util: Some(d(0.0)), mem_used: Some(d(10_000.0)), ..Default::default() };
    let hot = Gpu { util: Some(d(97.0)), mem_used: Some(d(4.0)), ..Default::default() };
    assert!(!gpu_is_busy(&idle));
    assert!(gpu_is_busy(&warm), "memory alone counts as busy");
    assert!(gpu_is_busy(&hot));
}

#[test]
fn a_public_payload_is_the_same_whatever_is_redacted() {
    let cfg = config(true);
    let mut other = config(true);
    other.ssh_user = "someone".into();
    other.servers[0].host = "192.168.1.7".into();
    other.servers[0].port = 2222;
    other.servers[0].note = "".into();
    let mut a = ok_sample();
    a.status = Status::Down;
    a.error = "refused by 10.0.0.1".into();
    let mut b = ok_sample();
    b.status = Status::Down;
    b.error = "timed out".into();
    let mut m = Table::new();
    m.insert("hi14".to_string(), a);
    let mut n = Table::new();
    n.insert("hi14".to_string(), b);
    let x = write_snapshot(&cfg, &cfg.active(), &m, true);
    let y = write_snapshot(&other, &other.active(), &n, true);
    assert_eq!(x, y);
}

#[test]
fn a_whole_snapshot_is_written() {
    let mut cfg = config(true);
    cfg.racks = vec![Rack { room: "301".into(), short: "A".into(), slots: vec!["hi14".into()] }];
    let mut m = Table::new();
    m.insert("hi14".to_string(), ok_sample());
    let out = write_snapshot(&cfg, &cfg.active(), &m, true);
    let v = hilmon::json::parse(&out).unwrap();
    let sum = v.get("summary").unwrap();
    assert_eq!(sum.num_or("servers_total", d(-1.0)), d(1.0));
    assert_eq!(sum.num_or("servers_up", d(-1.0)), d(1.0));
    assert_eq!(sum.num_or("gpus_total", d(-1.0)), d(1.0));
    assert_eq!(sum.num_or("gpus_busy", d(-1.0)), d(1.0));
    assert_eq!(sum.num_or("gpus_free", d(-1.0)), d(0.0));
    let s = &v.get("servers").unwrap().as_arr().unwrap()[0];
    assert_eq!(s.str_or("name", ""), "hi14");
    assert_eq!(s.str_or("status", ""), "ok");
}

#[test]
fn a_server_without_a_sample_is_pending() {
    let cfg = config(true);
    let m: Table<Sample> = Table::new();
    let out = write_snapshot(&cfg, &cfg.active(), &m, true);
    assert!(out.contains("\"pending\""), "{}", out);
    assert_eq!(Sample::default().status, Status::Pending);
    assert_eq!(Sample::default().error, "연결 중");
    assert_eq!(Status::Up.as_str(), "ok");
    assert_eq!(Status::Pending.as_str(), "pending");
    assert_eq!(Status::Down.as_str(), "down");
    assert_eq!(Status::NoGpu.as_str(), "nogpu");
}

#[test]
fn servers_are_listed_in_their_order() {
    let mut cfg = config(true);
    cfg.servers = vec![srv("hi30"), srv("hi9"), srv("hi14"), srv("lab"), srv("hi2")];
    cfg.servers[2].enabled = false;
    let names: Vec<&str> = cfg.active().iter().map(|s| s.name.as_str()).collect();
    assert_eq!(names, vec!["lab", "hi2", "hi9", "hi30"]);
    assert_eq!(sort_key("hi14"), (14, "hi14".to_string()));
}

#[test]
fn a_configuration_is_loaded() {
    let c = Config::load(
        r#"{"ssh_user":"u","public_mode":true,"min_ssh_interval_sec":3.5,
            "servers":[{"name":"hi1","host":"h1","port":2022,"n_gpu":4,"loc":"x"},
                       {"name":"hi2","host":"10.0.0.2","enabled":false}],
            "racks":[{"room":"r","short":"s","slots":["hi1","hi2"]}]}"#,
    )
    .unwrap();
    assert_eq!(c.ssh_user, "u");
    assert!(c.public_mode);
    assert_eq!(c.min_gap, d(3.5));
    assert_eq!(c.window, d(10.0));
    assert_eq!(c.max_per_window, 5);
    assert_eq!(c.servers.len(), 2);
    assert_eq!(c.servers[0].port, 2022);
    assert_eq!(c.servers[0].n_gpu, 4);
    assert!(c.servers[0].enabled);
    assert!(!c.servers[1].enabled);
    assert_eq!(c.servers[1].port, 22);
    assert_eq!(c.racks[0].slots, vec!["hi1".to_string(), "hi2".to_string()]);
}

#[test]
fn a_configuration_that_is_no_json_is_refused() {
    assert!(Config::load("{").is_err());
}
