use hilmon::double::Double;
use hilmon::model::Gpu;
use hilmon::power::{civil_from_days, day_of, days_from_civil, fmt, log_header, today, PowerLog};

fn d(x: f64) -> Double {
    Double { bits: x.to_bits() }
}

fn ds(v: &[f64]) -> Vec<Double> {
    v.iter().map(|&x| d(x)).collect()
}

#[test]
fn window_keeps_only_the_last_n() {
    let mut p = PowerLog::new(3, false);
    for w in [1.0, 2.0, 3.0, 4.0, 5.0] {
        p.record("hi14", d(w), &[], 0, 0, 0);
    }
    assert_eq!(p.series("hi14"), ds(&[3.0, 4.0, 5.0]));
    assert!(p.series("nope").is_empty());
}

#[test]
fn civil_conversion_round_trips() {
    for days in [0i64, 19_723, 19_784, -1, 25_000] {
        let (y, m, d) = civil_from_days(days);
        assert_eq!(days_from_civil(y, m, d), days, "{:?}", (y, m, d));
    }
}

#[test]
fn civil_dates_are_right() {
    assert_eq!(civil_from_days(0), (1970, 1, 1));
    assert_eq!(civil_from_days(19_723), (2024, 1, 1));
    assert_eq!(civil_from_days(19_784), (2024, 3, 2));
}

#[test]
fn csv_fields_drop_pointless_decimals() {
    assert_eq!(fmt(Some(d(250.0))), "250");
    assert_eq!(fmt(Some(d(249.46))), "249.5");
    assert_eq!(fmt(None), "");
}

#[test]
fn dates_follow_one_another() {
    let mut last = civil_from_days(-800_000);
    for z in -799_999i64..-799_000 {
        let now = civil_from_days(z);
        assert!(now > last);
        last = now;
    }
    assert_eq!(civil_from_days(-719_468), (0, 3, 1));
    assert_eq!(civil_from_days(11_016), (2000, 2, 29));
    assert_eq!(days_from_civil(1900, 3, 1) - days_from_civil(1900, 2, 28), 1);
    assert_eq!(days_from_civil(2000, 3, 1) - days_from_civil(2000, 2, 28), 2);
}

#[test]
fn days_are_named_by_their_dates() {
    assert_eq!(day_of(0), "19700101");
    assert_eq!(day_of(86_399), "19700101");
    assert_eq!(day_of(86_400), "19700102");
    assert_eq!(day_of(-1), "19691231");
    assert_eq!(day_of(1_789_000_000), "20260910");
}

#[test]
fn rows_are_logged_with_a_file_for_each_day() {
    let mut p = PowerLog::new(10, true);
    let g = Gpu {
        index: 1,
        power: Some(d(249.46)),
        power_limit: Some(d(250.0)),
        util: Some(d(97.0)),
        ..Default::default()
    };
    let a = p.record("hi14", d(249.46), &[g.clone()], 86_400, 0, 86_400).unwrap();
    assert_eq!(a.day, "19700102");
    assert!(a.file.unwrap().contains("19700102"));
    assert_eq!(a.rows, "86400,hi14,1,249.5,250,97,\n");
    p.opened(a.day);
    let a = p.record("hi14", d(1.0), &[g], 86_500, 0, 86_500).unwrap();
    assert!(a.file.is_none());
    assert_eq!(log_header(), "ts,server,gpu_index,watts,watt_limit,util,temp\n");
    p.failed();
    assert!(p.record("hi14", d(1.0), &[], 86_600, 0, 86_600).is_none());
    assert_eq!(p.series("hi14"), ds(&[249.46, 1.0, 1.0]));
}

#[test]
fn a_window_has_two_points_at_least() {
    let mut p = PowerLog::new(0, false);
    for w in [1.0, 2.0, 3.0] {
        assert!(p.record("a", d(w), &[], 0, 0, 0).is_none());
    }
    assert_eq!(p.series("a"), ds(&[2.0, 3.0]));
}

#[test]
fn the_log_goes_by_the_local_date() {
    assert_eq!(today(1_789_056_000, 0), "20260910");
    assert_eq!(today(1_789_056_000, 32_400), "20260911");
    assert_eq!(today(0, -1), "19691231");
    let mut p = PowerLog::new(10, true);
    let a = p.record("hi14", d(1.0), &[], 1_789_056_000, 32_400, 1_789_056_000).unwrap();
    assert_eq!(a.day, "20260911");
    assert_eq!(a.file, Some("power-20260911.csv".to_string()));
}
