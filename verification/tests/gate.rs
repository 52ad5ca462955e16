use hilmon::double::Double;
use hilmon::gate::{
    nap, parse_stamps, peak_per_sec, render_stamps, sortable, Gate, Turn, Verdict,
    DEFAULT_MAX_PER_WINDOW, DEFAULT_MIN_GAP, DEFAULT_WINDOW, HARD_CEILING_PER_SEC,
};

fn d(x: f64) -> Double {
    Double { bits: x.to_bits() }
}

fn f(x: Double) -> f64 {
    f64::from_bits(x.bits)
}

fn ds(v: &[f64]) -> Vec<Double> {
    v.iter().map(|&x| d(x)).collect()
}

fn fs(v: Vec<Double>) -> Vec<f64> {
    v.into_iter().map(f).collect()
}

#[test]
fn clamps_to_hard_ceiling() {
    let ceiling = HARD_CEILING_PER_SEC as f64;
    let g = Gate::new(d(0.0), d(1.0), 10_000);
    assert!(f(g.min_gap) >= 1.0 / ceiling);
    assert!(f(g.rate_per_sec()) <= ceiling + 1e-9);
    assert!(f(g.rate_per_sec()) * 20.0 <= 60.0, "must stay far under the campus limit");
}

#[test]
fn peak_counts_a_one_second_window() {
    assert_eq!(peak_per_sec(ds(&[0.0, 0.1, 0.2, 5.0])), 3);
    assert_eq!(peak_per_sec(ds(&[0.0, 2.0, 4.0])), 1);
    assert_eq!(peak_per_sec(ds(&[])), 0);
}

#[test]
fn stamps_round_trip() {
    let v = vec![1.5, 2.25, 3.0];
    assert_eq!(fs(parse_stamps(&render_stamps(&ds(&v)))), v);
    assert_eq!(fs(parse_stamps("[1.5, 2.25, 3.0]")), v);
    assert_eq!(fs(parse_stamps("")), Vec::<f64>::new());
}

#[test]
fn stamps_are_listed_in_thousandths() {
    assert_eq!(render_stamps(&ds(&[1_789_000_000.1234, 0.0])), "[1789000000.123,0.000]");
    assert_eq!(render_stamps(&[]), "[]");
    // What is listed reads back to the thousandth.
    assert_eq!(fs(parse_stamps("[1789000000.123,0.000]")), vec![1_789_000_000.123, 0.0]);
    assert_eq!(fs(parse_stamps(" [[1,x,,2]] \n")), vec![1.0, 2.0]);
}

#[test]
fn the_limits_cannot_be_loosened() {
    let g = Gate::new(d(-5.0), d(0.0), 0);
    assert_eq!(f(g.min_gap), 0.5);
    assert_eq!(f(g.window), 1.0);
    assert_eq!(g.max_per_window, 1);
    let g = Gate::new(d(2.5), d(10.0), 5);
    assert_eq!((f(g.min_gap), f(g.window), g.max_per_window), (2.5, 10.0, 5));
    assert_eq!(f(g.rate_per_sec()), 0.4);
    let g = Gate::new(d(f64::NAN), d(f64::NAN), usize::MAX);
    assert!(f(g.rate_per_sec()) <= 2.0);
    assert_eq!(DEFAULT_MIN_GAP, 25);
    assert_eq!(DEFAULT_WINDOW, 10);
    assert_eq!(DEFAULT_MAX_PER_WINDOW, 5);
}

#[test]
fn a_connection_waits_for_the_gap() {
    let g = Gate::new(d(2.5), d(10.0), 5);
    match g.try_take("[100.000]", d(101.0)) {
        Verdict::Wait(w) => assert_eq!(f(w), 1.5),
        Verdict::Taken(_) => panic!("too soon"),
    }
    match g.try_take("[100.000]", d(102.5)) {
        Verdict::Taken(s) => assert_eq!(s, "[100.000,102.500]"),
        Verdict::Wait(_) => panic!("the gap has passed"),
    }
}

#[test]
fn a_connection_waits_for_the_window() {
    let g = Gate::new(d(0.5), d(10.0), 3);
    match g.try_take("[100,101,102]", d(103.0)) {
        Verdict::Wait(w) => assert_eq!(f(w), 7.0),
        Verdict::Taken(_) => panic!("three in ten seconds"),
    }
    // Stamps of more than three windows ago are dropped.
    match g.try_take("[1,101,102,112]", d(113.0)) {
        Verdict::Taken(s) => assert_eq!(s, "[101.000,102.000,112.000,113.000]"),
        Verdict::Wait(_) => panic!("one in ten seconds"),
    }
}

#[test]
fn no_window_holds_more_than_it_may() {
    let g = Gate::new(d(0.5), d(4.0), 3);
    let mut raw = String::new();
    let mut taken: Vec<f64> = Vec::new();
    let mut t = 1000.0;
    while t < 1060.0 {
        if let Verdict::Taken(s) = g.try_take(&raw, d(t)) {
            raw = s;
            taken.push(t);
        }
        t += 0.25;
    }
    assert!(taken.len() > 20);
    for w in taken.windows(2) {
        assert!(w[1] - w[0] >= 0.5);
    }
    for &a in &taken {
        assert!(taken.iter().filter(|&&b| b >= a && b < a + 4.0).count() <= 3);
    }
    assert!(peak_per_sec(ds(&taken)) <= 3);
}

#[test]
fn a_peak_is_attained_and_not_passed() {
    assert_eq!(peak_per_sec(ds(&[5.0, 0.2, 0.0, 0.1])), 3);
    assert_eq!(peak_per_sec(ds(&[0.0, 1.0])), 2);
    assert_eq!(peak_per_sec(ds(&[0.0, 1.0625])), 1);
    assert!(!sortable(&ds(&[0.0, f64::NAN])));
    assert!(sortable(&ds(&[f64::NAN])));
}

#[test]
fn a_gate_that_cannot_be_asked_keeps_the_gap() {
    let g = Gate::new(d(2.5), d(10.0), 5);
    assert!(matches!(g.acquire(None), Turn::GoAfter(x) if f(x) == 2.5));
    assert!(matches!(g.acquire(Some(&Verdict::Taken(String::new()))), Turn::Go));
    assert!(matches!(g.acquire(Some(&Verdict::Wait(d(9.0)))), Turn::AskAfter(x) if f(x) == 5.01));
    assert_eq!(f(nap(d(1.0))), 1.01);
    assert_eq!(f(nap(d(60.0))), 5.01);
}

#[test]
fn a_gap_that_is_longer_than_three_windows_holds() {
    let g = Gate::new(d(40.0), d(10.0), 5);
    match g.try_take("[1000.000]", d(1035.0)) {
        Verdict::Wait(w) => assert_eq!(f(w), 5.0),
        Verdict::Taken(_) => panic!("the gap is not over"),
    }
    match g.try_take("[1000.000]", d(1040.0)) {
        Verdict::Wait(_) => panic!("the gap is over"),
        Verdict::Taken(s) => assert_eq!(s, "[1040.000]"),
    }
}

#[test]
fn a_large_window_holds_more_than_two_hundred() {
    let g = Gate::new(d(0.5), d(150.0), 250);
    assert_eq!(g.max_per_window, 250);
    let mut raw = String::new();
    let mut taken = 0;
    let mut t = 1000.0;
    while t < 1149.0 {
        if let Verdict::Taken(s) = g.try_take(&raw, d(t)) {
            raw = s;
            taken += 1;
        }
        t += 0.5;
    }
    assert_eq!(taken, 250);
    assert_eq!(parse_stamps(&raw).len(), 250);
}

#[test]
fn a_clock_that_is_set_back_lets_nothing_through() {
    let g = Gate::new(d(2.5), d(10.0), 5);
    match g.try_take("[1000.000]", d(990.0)) {
        Verdict::Wait(w) => assert_eq!(f(w), 12.5),
        Verdict::Taken(_) => panic!("the stamp is still to come"),
    }
}
