use hilmon::block::parse_block;
use hilmon::collect::{
    backoff, count_failure, end_message, expand_home, greatest, is_wedged, reconnecting, row_of,
    ssh_argv, stall_note, total, Collector, Reading, Stream, BLOCK_LIMIT, STALE_AFTER_SEC,
};
use hilmon::db::Row;
use hilmon::double::Double;
use hilmon::model::{Config, Gpu, Server, Status};
use hilmon::table::Table;

const T: u64 = STALE_AFTER_SEC;

fn d(x: f64) -> Double {
    Double { bits: x.to_bits() }
}

#[test]
fn a_stream_that_went_quiet_is_restarted() {
    assert!(!is_wedged(&Status::Up, 1_000, None, 1_000 + T));
    assert!(is_wedged(&Status::Up, 1_000, None, 1_000 + T + 1));
}

#[test]
fn a_stream_that_never_delivered_is_restarted_too() {
    assert!(!is_wedged(&Status::Pending, 0, Some(1_000), 1_000 + T));
    assert!(is_wedged(&Status::Pending, 0, Some(1_000), 1_000 + T + 1));
}

#[test]
fn waiting_at_the_rate_gate_is_not_a_fault() {
    assert!(!is_wedged(&Status::Pending, 0, None, 9_999_999));
}

#[test]
fn a_server_already_known_to_be_down_is_left_to_its_backoff() {
    assert!(!is_wedged(&Status::Down, 1_000, None, 9_999_999));
    assert!(!is_wedged(&Status::NoGpu, 1_000, Some(1_000), 9_999_999));
}

#[test]
fn a_fresh_sample_with_no_timestamp_is_not_restarted() {
    assert!(!is_wedged(&Status::Up, 0, None, 9_999_999));
}

const BLOCK: &str = "\
###GPU
0, NVIDIA GeForce RTX 3090, GPU-aaa, 97, 21916, 24576, 249.46, 250.00, 69, 83
1, NVIDIA GeForce RTX 3090, GPU-bbb, 0, 1, 24576, [N/A], [N/A], 46, 58
###PROC
GPU-aaa, 3584667, 21910
###LOAD
12.44 9.87 8.10 5/2411 31999
###NPROC
48
###MEM
Mem:  515000 312000 1200
###DISK
/dev/sda2 3844280832 1122334455 2721946377 30% /
###UP
1728394
";

#[test]
fn parses_a_full_block() {
    let (gpus, host, procs) = parse_block(BLOCK);
    assert_eq!(gpus.len(), 2);
    assert_eq!(gpus[0].util, Some(d(97.0)));
    assert_eq!(gpus[0].power, Some(d(249.46)));
    assert_eq!(gpus[1].power, None, "[N/A] must become None, not 0");
    assert_eq!(gpus[0].procs, vec![d(21910.0)]);
    assert!(gpus[1].procs.is_empty());
    let h = host.expect("host stats present");
    assert_eq!(h.nproc, 48);
    assert_eq!(h.load1, Some(d(12.44)));
    assert_eq!(h.ram_total_mb, Some(d(515000.0)));
    assert!(procs.is_some());
}

#[test]
fn fast_block_has_no_host_stats() {
    let fast = "###GPU\n0, X, GPU-a, 50, 1, 2, 10, 20, 30, 40\n";
    let (gpus, host, procs) = parse_block(fast);
    assert_eq!(gpus.len(), 1);
    assert!(host.is_none(), "caller must merge the last slow block");
    assert!(procs.is_none());
}

fn config() -> Config {
    Config {
        ssh_user: "sukim".into(),
        public_mode: true,
        min_gap: d(2.5),
        window: d(10.0),
        max_per_window: 5,
        connect_timeout: 6,
        power_points: 10,
        power_log: false,
        stats_period: 10,
        stats_keep_days: 365,
        servers: vec![],
        racks: vec![],
    }
}

fn server(name: &str) -> Server {
    Server {
        name: name.into(),
        host: "h".into(),
        port: 2222,
        gpu_model: String::new(),
        n_gpu: 1,
        loc: String::new(),
        identity: Some("~/.ssh/hil_monitor".into()),
        enabled: true,
        pin_address: false,
        note: String::new(),
    }
}

#[test]
fn identity_is_pinned_in_argv() {
    let a = ssh_argv(&config(), &server("hi14"), "/home/u");
    assert!(a.contains(&"IdentitiesOnly=yes".to_string()));
    assert!(a.iter().any(|x| x.ends_with("hil_monitor")));
    assert!(a.contains(&"2222".to_string()));
    assert_eq!(a.last().unwrap(), "sukim@h");
}

#[test]
fn the_home_directory_takes_the_place_of_the_tilde() {
    assert_eq!(expand_home("~/.ssh/k", "/home/u"), "/home/u/.ssh/k");
    assert_eq!(expand_home("/etc/k", "/home/u"), "/etc/k");
    assert_eq!(expand_home("~", "/home/u"), "~");
}

#[test]
fn cards_of_a_block_are_in_order() {
    let (gpus, _, _) = parse_block(
        "###GPU\n2, X, c, 1, 1, 1, 1, 1, 1, 1\n0, X, a, 2, 1, 1, 1, 1, 1, 1\nx, bad\n\
         1, X, b, 3, 1, 1, 1, 1, 1, 1\n###PROC\nb, 1, 10\nb, 2, 20\nz, 3, 30\n",
    );
    let at: Vec<u32> = gpus.iter().map(|g| g.index).collect();
    assert_eq!(at, vec![0, 1, 2]);
    assert_eq!(gpus[1].procs, vec![d(10.0), d(20.0)]);
    assert!(gpus[0].procs.is_empty());
}

#[test]
fn a_stream_gives_its_blocks() {
    let mut s = Stream::new();
    for line in BLOCK.lines() {
        assert!(s.feed(line).is_none());
    }
    assert_eq!(s.feed(" ###END \r").unwrap().len(), 2);
    assert!(s.got_any);
    assert_eq!(s.last_host.as_ref().unwrap().nproc, 48);
    assert!(s.buf.is_empty());
    // A block without cards gives nothing, and the host stays.
    assert!(s.feed("###END").is_none());
    assert_eq!(s.last_host.as_ref().unwrap().nproc, 48);
    // A block that runs away is dropped.
    let long = "x".repeat(BLOCK_LIMIT);
    assert!(s.feed(&long).is_none());
    assert!(s.buf.is_empty());
}

#[test]
fn the_end_of_a_stream_is_explained() {
    assert_eq!(
        end_message("Pseudo-terminal will not be allocated\nrefused\n\n", true),
        "refused"
    );
    assert_eq!(end_message("", true), "stream ended");
    assert_eq!(end_message("\n \n", false), "no data");
}

#[test]
fn retries_back_off() {
    let delays: Vec<u64> = (1..10).map(backoff).collect();
    assert_eq!(delays, vec![10, 20, 40, 80, 160, 300, 300, 300, 300]);
    assert_eq!(count_failure(3, false), 4);
    assert_eq!(count_failure(3, true), 1);
    assert_eq!(reconnecting(20), "reconnecting in 20s");
    assert_eq!(
        stall_note("01:02:03", "hi14"),
        format!("01:02:03   hi14: silent for over {}s, restarting the stream", T)
    );
}

fn card(index: u32, util: f64, power: Option<f64>) -> Gpu {
    Gpu {
        index,
        util: Some(d(util)),
        mem_used: Some(d(1000.0)),
        mem_total: Some(d(4000.0)),
        power: power.map(d),
        power_limit: Some(d(300.0)),
        temp: Some(d(60.4)),
        ..Default::default()
    }
}

#[test]
fn a_row_sums_up_the_cards() {
    let gpus = vec![card(0, 90.0, Some(250.4)), card(1, 1.0, Some(100.2))];
    assert_eq!(
        row_of(&gpus, 77),
        Row {
            ts: 77,
            watts: 351,
            watt_cap: 600,
            util_avg: 46,
            util_max: 90,
            temp_max: 60,
            gpus: 2,
            busy: 2,
            mem_pct: 250,
        }
    );
    assert_eq!(total(&gpus, Reading::Power), d(250.4 + 100.2));
    assert_eq!(greatest(&gpus, Reading::Util), d(90.0));
}

#[test]
fn a_block_is_committed() {
    let mut cfg = config();
    cfg.servers = vec![server("hi14"), server("hi15")];
    let mut c = Collector::new(cfg, "stats".to_string());
    assert_eq!(c.samples().entries.len(), 2);
    let mut g = card(0, 50.0, Some(100.0));
    g.procs = vec![d(5.0)];
    let e = c.commit("hi14", vec![g], None, d(1_789_000_000.5), 0);
    assert!(e.log.is_none());
    assert_eq!(e.row.unwrap().file, "hi14-20260910.bin");
    let s = c.samples().get("hi14").unwrap();
    assert_eq!(s.status, Status::Up);
    assert_eq!(s.ts, 1_789_000_000);
    assert_eq!(s.watts, Some(d(100.0)));
    assert_eq!(s.watt_history, vec![d(100.0)]);
    // A block without processes keeps those that were known.
    c.commit("hi14", vec![card(0, 60.0, None)], None, d(1_789_000_001.0), 0);
    let s = c.samples().get("hi14").unwrap();
    assert_eq!(s.gpus[0].procs, vec![d(5.0)]);
    assert_eq!(s.watts, None);
    assert_eq!(s.watt_history, vec![d(100.0)]);
    // A server that goes down keeps its readings.
    c.set_state("hi14", Status::Down, "gone");
    let s = c.samples().get("hi14").unwrap();
    assert_eq!((s.status, s.error.as_str(), s.gpus.len()), (Status::Down, "gone", 1));
    c.set_state("nobody", Status::Down, "gone");
    assert!(c.samples().get("nobody").is_none());
    assert_eq!(c.samples().get("hi15").unwrap().status, Status::Pending);
    assert!(c.snapshot_json(true).contains("\"hi15\""));
    assert_eq!(c.config().servers.len(), 2);
}

#[test]
fn stuck_streams_are_found() {
    let mut cfg = config();
    cfg.servers = vec![server("hi14"), server("hi15"), server("hi16")];
    let mut c = Collector::new(cfg, "stats".to_string());
    c.commit("hi14", vec![card(0, 50.0, None)], None, d(1000.0), 0);
    let mut spawned = Table::new();
    spawned.insert("hi15".to_string(), 1000u64);
    assert!(c.stuck(&spawned, 1000 + T).is_empty());
    assert_eq!(c.stuck(&spawned, 1001 + T), vec!["hi14".to_string(), "hi15".to_string()]);
}

#[test]
fn statistics_are_written() {
    let mut cfg = config();
    cfg.servers = vec![server("hi14")];
    let c = Collector::new(cfg, "stats".to_string());
    let ranges = Collector::stats_ranges(Some(1_000_000), 1_007_200);
    assert_eq!(
        ranges,
        vec![("6h", 21_600, 180), ("24h", 86_400, 144), ("7d", 604_800, 168), ("all", 7200, 200)]
    );
    assert_eq!(Collector::stats_ranges(None, 5)[3], ("all", 3600, 200));
    let rows = vec![Row { ts: 95, watts: 7, gpus: 1, ..Default::default() }];
    let out = c.stats_json(&[("x", 10, 2)], &vec![vec![rows]], 100).unwrap();
    assert_eq!(
        out,
        "{\"now\":100,\"servers\":[{\"name\":\"hi14\",\"gpu\":\"\",\"n_gpu\":1,\"loc\":\"\"}],\
         \"ranges\":{\"x\":{\"from\":90,\"step\":5,\"n\":2,\"data\":{\"hi14\":{\"w\":[0,7],\
         \"u\":[0,0],\"x\":[0,0],\"t\":[0,0],\"b\":[0,0],\"g\":[0,1]}}}}}"
    );
    let v = hilmon::json::parse(&out).unwrap();
    let x = v.get("ranges").unwrap().get("x").unwrap();
    assert_eq!(x.num_or("step", d(0.0)), d(5.0));
    // Rows for each range and server are needed.
    assert!(c.stats_json(&[("x", 10, 2)], &vec![], 100).is_none());
}

#[test]
fn the_grid_of_a_range_does_not_shift() {
    let (a, step, n) = hilmon::stats::grid_of(21_600, 180, 1_789_000_000);
    assert_eq!((step, n), (120, 180));
    for now in 1_789_000_000u32..1_789_000_030 {
        let (b, _, _) = hilmon::stats::grid_of(21_600, 180, now);
        assert_eq!(b % 120, 0);
        assert!(b == a || b == a + 120);
    }
    assert_eq!(hilmon::stats::rows_wanted(180), 1440);
}
