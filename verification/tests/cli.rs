use hilmon::cli::{
    check_report, count_up, offset_of, once_heading, once_note, parse_args, pause, prune_note,
    publish_note, rate_report, stamp, start_note, stats_note, summary_note, summary_start_note,
    upload_note, Args, Plan, Publisher, Upload, Waiting, HELP, STALL_LIMIT,
};
use hilmon::collect::Collector;
use hilmon::double::Double;
use hilmon::gate::Gate;
use hilmon::model::{Config, Gpu, Server, Status};

fn d(x: f64) -> Double {
    Double { bits: x.to_bits() }
}

fn parse(argv: &[&str]) -> Result<Option<Args>, String> {
    let argv: Vec<String> = argv.iter().map(|s| s.to_string()).collect();
    parse_args(&argv, "servers.json".to_string(), "web".to_string())
}

#[test]
fn arguments_have_defaults() {
    let a = parse(&[]).unwrap().unwrap();
    assert_eq!(a.config, "servers.json");
    assert_eq!(a.web, "web");
    assert_eq!(a.port, 8899);
    assert_eq!(a.bind, "127.0.0.1");
    assert_eq!(a.summary_model, "gemini-2.5-flash");
    assert_eq!((a.summary_interval, a.summary_timeout), (300, 60));
    assert_eq!((a.stats_interval, a.interval), (60, 2));
    assert!(a.publish.is_none() && a.upload_cmd.is_none() && a.summary_key.is_none());
    assert!(!a.check && !a.once && !a.rate && !a.loop_);
}

#[test]
fn arguments_are_read() {
    let a = parse(&[
        "-c", "x.json", "-p", "80", "--bind", "0.0.0.0", "--web", "w", "--publish", "out",
        "--upload-cmd", "a", "--upload-cmd-tick", "b", "--upload-cmd-stats", "c",
        "--upload-cmd-summary", "d", "--summary-key", "k", "--summary-model", "m",
        "--summary-once", "o", "--summary-prompt", "p", "--summary-timeout", "5",
        "--summary-interval", "6", "--stats-interval", "7", "--publish-interval", "8", "--check",
        "--once", "--rate", "--loop", "--port", "+81",
    ])
    .unwrap()
    .unwrap();
    assert_eq!((a.config.as_str(), a.port, a.bind.as_str()), ("x.json", 81, "0.0.0.0"));
    assert_eq!((a.web.as_str(), a.publish.as_deref()), ("w", Some("out")));
    assert_eq!((a.upload_cmd.as_deref(), a.upload_cmd_tick.as_deref()), (Some("a"), Some("b")));
    assert_eq!(
        (a.upload_cmd_stats.as_deref(), a.upload_cmd_summary.as_deref()),
        (Some("c"), Some("d"))
    );
    assert_eq!((a.summary_key.as_deref(), a.summary_model.as_str()), (Some("k"), "m"));
    assert_eq!((a.summary_once.as_deref(), a.summary_prompt.as_deref()), (Some("o"), Some("p")));
    assert_eq!((a.summary_timeout, a.summary_interval), (5, 6));
    assert_eq!((a.stats_interval, a.interval), (7, 8));
    assert!(a.check && a.once && a.rate && a.loop_);
}

#[test]
fn the_last_value_of_an_option_decides() {
    let a = parse(&["--bind", "a", "--check", "--bind", "b"]).unwrap().unwrap();
    assert_eq!(a.bind, "b");
    // A value may look like an option.
    let a = parse(&["--bind", "--help"]).unwrap().unwrap();
    assert_eq!(a.bind, "--help");
}

#[test]
fn bad_arguments_are_refused() {
    for (argv, want) in [
        (vec!["--config"], "--config needs a value"),
        (vec!["--check", "-p"], "-p needs a value"),
        (vec!["--port", "65536"], "bad port"),
        (vec!["--port", "x"], "bad port"),
        (vec!["--summary-timeout", "-1"], "bad --summary-timeout"),
        (vec!["--summary-interval", ""], "bad --summary-interval"),
        (vec!["--stats-interval", "1.5"], "bad --stats-interval"),
        (vec!["--publish-interval", "a"], "bad interval"),
        (vec!["--chec\"k\n"], "unknown argument \"--chec\\\"k\\n\""),
        (vec!["x", "--help"], "unknown argument \"x\""),
    ] {
        match parse(&argv) {
            Err(e) => assert_eq!(e, want),
            Ok(_) => panic!("{:?}", argv),
        }
    }
    assert!(parse(&["--check", "-h", "--nonsense"]).unwrap().is_none());
    assert!(parse(&["--help"]).unwrap().is_none());
    assert!(HELP.contains("(default 300)") && HELP.ends_with("each summary rewrite"));
}

#[test]
fn times_of_day_are_written() {
    assert_eq!(stamp(0, 0), "00:00:00");
    assert_eq!(stamp(86_399, 0), "23:59:59");
    assert_eq!(stamp(86_399, 1), "00:00:00");
    assert_eq!(stamp(0, -1), "23:59:59");
    assert_eq!(stamp(1_789_000_000, 9 * 3600), "09:26:40");
    assert_eq!(offset_of(" 540\r\n"), 32_400);
    assert_eq!(offset_of("-300"), -18_000);
    assert_eq!(offset_of("x"), 0);
}

#[test]
fn the_wait_ends_when_all_are_up() {
    let mut w = Waiting::new(3, 45);
    assert!(!w.next(0));
    assert!(!w.next(2));
    assert!(w.next(3));
}

#[test]
fn the_wait_ends_when_no_more_come() {
    let mut w = Waiting::new(3, 90);
    for _ in 0..20 {
        assert!(!w.next(0), "nothing has come yet");
    }
    assert!(!w.next(1));
    for _ in 1..STALL_LIMIT {
        assert!(!w.next(1));
    }
    assert!(w.next(1));
}

#[test]
fn the_wait_ends_in_time() {
    let mut w = Waiting::new(3, 2);
    assert!(!w.next(0));
    assert!(!w.next(0));
    assert!(w.next(0));
}

fn server(name: &str, host: &str) -> Server {
    Server {
        name: name.into(),
        host: host.into(),
        port: 22,
        gpu_model: String::new(),
        n_gpu: 1,
        loc: String::new(),
        identity: None,
        enabled: true,
        pin_address: false,
        note: String::new(),
    }
}

fn collector() -> Collector {
    let cfg = Config {
        ssh_user: "u".into(),
        public_mode: true,
        min_gap: d(2.5),
        window: d(10.0),
        max_per_window: 5,
        connect_timeout: 6,
        power_points: 10,
        power_log: false,
        stats_period: 10,
        stats_keep_days: 365,
        servers: vec![server("hi14", "10.0.0.14"), server("hi2", "10.0.0.2")],
        racks: vec![],
    };
    Collector::new(cfg, "stats".to_string())
}

#[test]
fn a_check_reports_each_server() {
    let mut c = collector();
    let busy = Gpu { util: Some(d(99.0)), power: Some(d(100.4)), ..Default::default() };
    let idle = Gpu { index: 1, power: Some(d(20.2)), ..Default::default() };
    c.commit("hi14", vec![busy, idle], None, d(5.0), 0);
    c.set_state("hi2", Status::Down, "refused");
    let watts: f64 = [100.4, 20.2].iter().sum();
    assert_eq!(
        check_report(&c),
        format!(
            "  FAIL {:<5} {:<18} {}\n  OK   {:<5} {:<18} {} GPU  {}/{} busy  {:.0} W\n\n{}/{} up, {} GPUs visible",
            "hi2", "10.0.0.2", "refused", "hi14", "10.0.0.14", 2, 1, 2, watts, 1, 2, 2
        )
    );
    assert_eq!(count_up(c.samples()), 1);
}

#[test]
fn the_rate_is_reported() {
    let g = Gate::new(d(2.5), d(10.0), 5);
    let hist = vec![d(50.0), d(95.0), d(99.5), d(99.75)];
    assert_eq!(
        rate_report(&g, "gate.json", hist, d(100.0)),
        "SSH rate gate\n  file             : gate.json\n  min gap          : 2.50s between connections\n  \
         window           : 5 connections / 10s\n  sustained ceiling: 0.40 conn/sec\n  \
         hard ceiling     : 2.00 conn/sec (not configurable higher)\n  campus limit     : ~60 conn/sec\n  \
         margin           : 150x below the campus limit\nrecent history\n  \
         last 1s / 10s / 60s : 2 / 3 / 4\n  peak in any 1s      : 2"
    );
}

#[test]
fn rounds_keep_their_cadence() {
    let mut args = parse(&["--stats-interval", "60", "--summary-interval", "300"]).unwrap().unwrap();
    args.loop_ = true;
    let mut p = Publisher::new(d(1_000_000.0));
    let plan = p.plan(&args, d(1_000_001.0), true);
    assert_eq!(plan, Plan { page: true, stats: true, summary: true, prune: false });
    assert!(p.finish(&args));
    let plan = p.plan(&args, d(1_000_060.5), true);
    assert_eq!(plan, Plan { page: false, stats: false, summary: false, prune: false });
    let plan = p.plan(&args, d(1_000_061.0), true);
    assert_eq!(plan, Plan { page: false, stats: true, summary: false, prune: false });
    let plan = p.plan(&args, d(1_000_301.0), false);
    assert_eq!(plan, Plan { page: false, stats: true, summary: false, prune: false });
    let plan = p.plan(&args, d(1_000_302.0), true);
    assert_eq!(plan, Plan { page: false, stats: false, summary: true, prune: false });
    let plan = p.plan(&args, d(1_086_400.0), false);
    assert!(plan.prune);
    args.loop_ = false;
    assert!(!p.finish(&args));
}

#[test]
fn uploads_have_their_commands() {
    let args = parse(&["--upload-cmd", "all", "--upload-cmd-stats", "s", "--upload-cmd-summary", "t"])
        .unwrap()
        .unwrap();
    let mut p = Publisher::new(d(0.0));
    assert_eq!(p.command(&args, Upload::Snapshot).map(|s| s.as_str()), Some("all"));
    assert!(p.command(&args, Upload::Stats).is_none());
    assert!(p.command(&args, Upload::Summary).is_none());
    p.finish(&args);
    assert_eq!(p.command(&args, Upload::Snapshot).map(|s| s.as_str()), Some("all"));
    assert_eq!(p.command(&args, Upload::Stats).map(|s| s.as_str()), Some("s"));
    assert_eq!(p.command(&args, Upload::Summary).map(|s| s.as_str()), Some("t"));
    let args = parse(&["--upload-cmd", "all", "--upload-cmd-tick", "one"]).unwrap().unwrap();
    assert_eq!(p.command(&args, Upload::Snapshot).map(|s| s.as_str()), Some("one"));
    assert!(p.command(&args, Upload::Stats).is_none());
}

#[test]
fn the_log_of_publishing_is_written() {
    let mut c = collector();
    let busy = Gpu { util: Some(d(99.0)), ..Default::default() };
    c.commit("hi14", vec![busy, Gpu { index: 1, ..Default::default() }], None, d(5.0), 0);
    assert_eq!(
        publish_note("01:02:03", c.samples(), 2, true),
        "01:02:03 published 1/2 up, 1/2 GPUs free, redacted"
    );
    assert_eq!(
        publish_note("t", c.samples(), 2, false) + &upload_note(&Ok(true)),
        "t published 1/2 up, 1/2 GPUs free | upload ok"
    );
    assert_eq!(upload_note(&Ok(false)), " | upload FAILED");
    assert_eq!(upload_note(&Err("no sh".to_string())), " | upload error no sh");
    assert_eq!(stats_note("t", 5000), "t   stats.json 4 KB");
    assert_eq!(summary_note("t"), "t   summary updated");
    assert_eq!(
        start_note("t", 13, 2),
        "t START streaming: 13 servers, one persistent connection each, publishing every 2s"
    );
    assert_eq!(summary_start_note("t", "m", 300), "t summary: m every 300s");
    assert_eq!(prune_note(0), None);
    assert_eq!(prune_note(4).as_deref(), Some("  stats: pruned 4 old day files"));
    assert_eq!(pause(2, d(0.25)), d(1.75));
    assert_eq!(pause(2, d(9.0)), d(0.5));
}

#[test]
fn one_summary_is_printed() {
    assert_eq!(
        once_heading("m", "가나", "abc"),
        "model   : m\nprompt  : 2 chars\nfacts   : 3 chars\n"
    );
    assert_eq!(
        once_note(d(1.25), &Ok("조용합니다.".to_string())),
        "--- answer (1.2s, 6 chars) ---\n조용합니다."
    );
    assert_eq!(once_note(d(2.0), &Err("no".to_string())), "--- FAILED after 2.0s ---\nno");
}
