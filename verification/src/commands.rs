//! What the arguments, the clock and the counts of the program say.

use vstd::prelude::*;
use crate::cli::{
    busies, cards, clock_text, key_of, lemma_last_decides, lemma_read_on, padded, read_args,
    switched, ups, Key, Outcome, Setting, Settings, Switch,
};
use crate::counts::{is_such, lemma_busy_works, Which};
use crate::decimal::{lemma_filled, lemma_numeral_number, number, parsed_whole, ten};
use crate::model::{busy_count, Gpu, Sample, Status};
use crate::text::{is_digit, numeral};

verus! {

broadcast use vstd::string::group_string_axioms;

// ---------------------------------------------------------------- the arguments

#[verifier::rlimit(40)]
proof fn lemma_keys()
    ensures
        key_of("-c"@) == Key::Value(Setting::Config),
        key_of("--config"@) == Key::Value(Setting::Config),
        key_of("--bind"@) == Key::Value(Setting::Bind),
        key_of("--web"@) == Key::Value(Setting::Web),
        key_of("--publish"@) == Key::Value(Setting::Publish),
        key_of("--upload-cmd"@) == Key::Value(Setting::UploadCmd),
        key_of("--upload-cmd-tick"@) == Key::Value(Setting::UploadCmdTick),
        key_of("--upload-cmd-stats"@) == Key::Value(Setting::UploadCmdStats),
        key_of("--upload-cmd-summary"@) == Key::Value(Setting::UploadCmdSummary),
        key_of("--summary-key"@) == Key::Value(Setting::SummaryKey),
        key_of("--summary-model"@) == Key::Value(Setting::SummaryModel),
        key_of("--summary-once"@) == Key::Value(Setting::SummaryOnce),
        key_of("--summary-prompt"@) == Key::Value(Setting::SummaryPrompt),
        key_of("-p"@) == Key::Value(Setting::Port),
        key_of("--port"@) == Key::Value(Setting::Port),
        key_of("--summary-timeout"@) == Key::Value(Setting::SummaryTimeout),
        key_of("--summary-interval"@) == Key::Value(Setting::SummaryInterval),
        key_of("--stats-interval"@) == Key::Value(Setting::StatsInterval),
        key_of("--publish-interval"@) == Key::Value(Setting::PublishInterval),
        key_of("--check"@) == Key::On(Switch::Check),
        key_of("--once"@) == Key::On(Switch::Once),
        key_of("--rate"@) == Key::On(Switch::Rate),
        key_of("--loop"@) == Key::On(Switch::Loop),
        key_of("-h"@) == Key::Help,
        key_of("--help"@) == Key::Help,
{
    reveal_strlit("-c");
    reveal_strlit("--config");
    reveal_strlit("-p");
    reveal_strlit("--port");
    reveal_strlit("--bind");
    reveal_strlit("--web");
    reveal_strlit("--publish");
    reveal_strlit("--upload-cmd");
    reveal_strlit("--upload-cmd-tick");
    reveal_strlit("--upload-cmd-stats");
    reveal_strlit("--upload-cmd-summary");
    reveal_strlit("--summary-key");
    reveal_strlit("--summary-model");
    reveal_strlit("--summary-once");
    reveal_strlit("--summary-prompt");
    reveal_strlit("--summary-timeout");
    reveal_strlit("--summary-interval");
    reveal_strlit("--stats-interval");
    reveal_strlit("--publish-interval");
    reveal_strlit("--check");
    reveal_strlit("--once");
    reveal_strlit("--rate");
    reveal_strlit("--loop");
    reveal_strlit("-h");
    reveal_strlit("--help");
    assert("-c"@.len() == 2);
    assert("--config"@.len() == 8);
    assert("-p"@.len() == 2);
    assert("--port"@.len() == 6);
    assert("--bind"@.len() == 6);
    assert("--web"@.len() == 5);
    assert("--publish"@.len() == 9);
    assert("--upload-cmd"@.len() == 12);
    assert("--upload-cmd-tick"@.len() == 17);
    assert("--upload-cmd-stats"@.len() == 18);
    assert("--upload-cmd-summary"@.len() == 20);
    assert("--summary-key"@.len() == 13);
    assert("--summary-model"@.len() == 15);
    assert("--summary-once"@.len() == 14);
    assert("--summary-prompt"@.len() == 16);
    assert("--summary-timeout"@.len() == 17);
    assert("--summary-interval"@.len() == 18);
    assert("--stats-interval"@.len() == 16);
    assert("--publish-interval"@.len() == 18);
    assert("--check"@.len() == 7);
    assert("--once"@.len() == 6);
    assert("--rate"@.len() == 6);
    assert("--loop"@.len() == 6);
    assert("-h"@.len() == 2);
    assert("--help"@.len() == 6);
    assert("-c"@[1] != "-p"@[1]);
    assert("-c"@[1] != "-h"@[1]);
    assert("-p"@[1] != "-h"@[1]);
    assert("--port"@[2] != "--bind"@[2]);
    assert("--port"@[2] != "--once"@[2]);
    assert("--port"@[2] != "--rate"@[2]);
    assert("--port"@[2] != "--loop"@[2]);
    assert("--port"@[2] != "--help"@[2]);
    assert("--bind"@[2] != "--once"@[2]);
    assert("--bind"@[2] != "--rate"@[2]);
    assert("--bind"@[2] != "--loop"@[2]);
    assert("--bind"@[2] != "--help"@[2]);
    assert("--upload-cmd-tick"@[2] != "--summary-timeout"@[2]);
    assert("--upload-cmd-stats"@[2] != "--summary-interval"@[2]);
    assert("--upload-cmd-stats"@[2] != "--publish-interval"@[2]);
    assert("--summary-prompt"@[3] != "--stats-interval"@[3]);
    assert("--summary-interval"@[2] != "--publish-interval"@[2]);
    assert("--once"@[2] != "--rate"@[2]);
    assert("--once"@[2] != "--loop"@[2]);
    assert("--once"@[2] != "--help"@[2]);
    assert("--rate"@[2] != "--loop"@[2]);
    assert("--rate"@[2] != "--help"@[2]);
    assert("--loop"@[2] != "--help"@[2]);
}

/// An option with a text, given after others, sets what it is named for to that text and leaves
/// everything else as the others set it.
#[verifier::rlimit(60)]
pub proof fn lemma_text_options(argv: Seq<Seq<char>>, s: Settings, t: Settings, v: Seq<char>)
    requires
        read_args(argv, 0, s) == Outcome::Run(t),
    ensures
        read_args(argv + seq!["-c"@, v], 0, s) == Outcome::Run(
            (Settings { config: v, ..t }),
        ),
        read_args(argv + seq!["--config"@, v], 0, s) == Outcome::Run(
            (Settings { config: v, ..t }),
        ),
        read_args(argv + seq!["--bind"@, v], 0, s) == Outcome::Run(
            (Settings { bind: v, ..t }),
        ),
        read_args(argv + seq!["--web"@, v], 0, s) == Outcome::Run(
            (Settings { web: v, ..t }),
        ),
        read_args(argv + seq!["--publish"@, v], 0, s) == Outcome::Run(
            (Settings { publish: Some(v), ..t }),
        ),
        read_args(argv + seq!["--upload-cmd"@, v], 0, s) == Outcome::Run(
            (Settings { upload_cmd: Some(v), ..t }),
        ),
        read_args(argv + seq!["--upload-cmd-tick"@, v], 0, s) == Outcome::Run(
            (Settings { upload_cmd_tick: Some(v), ..t }),
        ),
        read_args(argv + seq!["--upload-cmd-stats"@, v], 0, s) == Outcome::Run(
            (Settings { upload_cmd_stats: Some(v), ..t }),
        ),
        read_args(argv + seq!["--upload-cmd-summary"@, v], 0, s) == Outcome::Run(
            (Settings { upload_cmd_summary: Some(v), ..t }),
        ),
        read_args(argv + seq!["--summary-key"@, v], 0, s) == Outcome::Run(
            (Settings { summary_key: Some(v), ..t }),
        ),
        read_args(argv + seq!["--summary-model"@, v], 0, s) == Outcome::Run(
            (Settings { summary_model: v, ..t }),
        ),
        read_args(argv + seq!["--summary-once"@, v], 0, s) == Outcome::Run(
            (Settings { summary_once: Some(v), ..t }),
        ),
        read_args(argv + seq!["--summary-prompt"@, v], 0, s) == Outcome::Run(
            (Settings { summary_prompt: Some(v), ..t }),
        ),
{
    lemma_keys();
    lemma_last_decides(argv, s, t, "-c"@, Setting::Config, v);
    lemma_last_decides(argv, s, t, "--config"@, Setting::Config, v);
    lemma_last_decides(argv, s, t, "--bind"@, Setting::Bind, v);
    lemma_last_decides(argv, s, t, "--web"@, Setting::Web, v);
    lemma_last_decides(argv, s, t, "--publish"@, Setting::Publish, v);
    lemma_last_decides(argv, s, t, "--upload-cmd"@, Setting::UploadCmd, v);
    lemma_last_decides(argv, s, t, "--upload-cmd-tick"@, Setting::UploadCmdTick, v);
    lemma_last_decides(argv, s, t, "--upload-cmd-stats"@, Setting::UploadCmdStats, v);
    lemma_last_decides(argv, s, t, "--upload-cmd-summary"@, Setting::UploadCmdSummary, v);
    lemma_last_decides(argv, s, t, "--summary-key"@, Setting::SummaryKey, v);
    lemma_last_decides(argv, s, t, "--summary-model"@, Setting::SummaryModel, v);
    lemma_last_decides(argv, s, t, "--summary-once"@, Setting::SummaryOnce, v);
    lemma_last_decides(argv, s, t, "--summary-prompt"@, Setting::SummaryPrompt, v);
}

proof fn lemma_parsed(n: nat, max: nat)
    ensures
        parsed_whole(numeral(n), max) == if n <= max {
            Some(n)
        } else {
            None
        },
{
    lemma_numeral_number(n);
    assert(is_digit(numeral(n)[0]));
}

/// An option with a number, given after others, sets what it is named for to that number and
/// leaves everything else as the others set it, and fails where the number has no room.
#[verifier::rlimit(60)]
pub proof fn lemma_number_options(argv: Seq<Seq<char>>, s: Settings, t: Settings, n: nat)
    requires
        read_args(argv, 0, s) == Outcome::Run(t),
    ensures
        n <= u16::MAX ==> read_args(argv + seq!["-p"@, numeral(n)], 0, s) == Outcome::Run(
            (Settings { port: n as u16, ..t }),
        ),
        n > u16::MAX ==> read_args(argv + seq!["-p"@, numeral(n)], 0, s) is Fail,
        n <= u16::MAX ==> read_args(argv + seq!["--port"@, numeral(n)], 0, s) == Outcome::Run(
            (Settings { port: n as u16, ..t }),
        ),
        n > u16::MAX ==> read_args(argv + seq!["--port"@, numeral(n)], 0, s) is Fail,
        n <= u32::MAX ==> read_args(argv + seq!["--summary-timeout"@, numeral(n)], 0, s) == Outcome::Run(
            (Settings { summary_timeout: n as u32, ..t }),
        ),
        n > u32::MAX ==> read_args(argv + seq!["--summary-timeout"@, numeral(n)], 0, s) is Fail,
        n <= u64::MAX ==> read_args(argv + seq!["--summary-interval"@, numeral(n)], 0, s) == Outcome::Run(
            (Settings { summary_interval: n as u64, ..t }),
        ),
        n > u64::MAX ==> read_args(argv + seq!["--summary-interval"@, numeral(n)], 0, s) is Fail,
        n <= u64::MAX ==> read_args(argv + seq!["--stats-interval"@, numeral(n)], 0, s) == Outcome::Run(
            (Settings { stats_interval: n as u64, ..t }),
        ),
        n > u64::MAX ==> read_args(argv + seq!["--stats-interval"@, numeral(n)], 0, s) is Fail,
        n <= u64::MAX ==> read_args(argv + seq!["--publish-interval"@, numeral(n)], 0, s) == Outcome::Run(
            (Settings { interval: n as u64, ..t }),
        ),
        n > u64::MAX ==> read_args(argv + seq!["--publish-interval"@, numeral(n)], 0, s) is Fail,
{
    lemma_keys();
    lemma_parsed(n, u16::MAX as nat);
    lemma_parsed(n, u32::MAX as nat);
    lemma_parsed(n, u64::MAX as nat);
    lemma_last_decides(argv, s, t, "-p"@, Setting::Port, numeral(n));
    lemma_last_decides(argv, s, t, "--port"@, Setting::Port, numeral(n));
    lemma_last_decides(argv, s, t, "--summary-timeout"@, Setting::SummaryTimeout, numeral(n));
    lemma_last_decides(argv, s, t, "--summary-interval"@, Setting::SummaryInterval, numeral(n));
    lemma_last_decides(argv, s, t, "--stats-interval"@, Setting::StatsInterval, numeral(n));
    lemma_last_decides(argv, s, t, "--publish-interval"@, Setting::PublishInterval, numeral(n));
}

proof fn lemma_switch(argv: Seq<Seq<char>>, s: Settings, t: Settings, k: Seq<char>, w: Switch)
    requires
        read_args(argv, 0, s) == Outcome::Run(t),
        key_of(k) == Key::On(w),
    ensures
        read_args(argv + seq![k], 0, s) == Outcome::Run(switched(t, w)),
{
    let all = argv + seq![k];
    lemma_read_on(argv, seq![k], 0, s, t);
    assert(all[argv.len() as int] == k);
    assert(read_args(all, all.len() as int, switched(t, w)) == Outcome::Run(switched(t, w)));
}

/// An option without a value, given after others, is on and leaves everything else as the others
/// set it.
#[verifier::rlimit(60)]
pub proof fn lemma_switches(argv: Seq<Seq<char>>, s: Settings, t: Settings)
    requires
        read_args(argv, 0, s) == Outcome::Run(t),
    ensures
        read_args(argv + seq!["--check"@], 0, s) == Outcome::Run((Settings { check: true, ..t })),
        read_args(argv + seq!["--once"@], 0, s) == Outcome::Run((Settings { once: true, ..t })),
        read_args(argv + seq!["--rate"@], 0, s) == Outcome::Run((Settings { rate: true, ..t })),
        read_args(argv + seq!["--loop"@], 0, s) == Outcome::Run((Settings { loop_: true, ..t })),
{
    lemma_keys();
    lemma_switch(argv, s, t, "--check"@, Switch::Check);
    lemma_switch(argv, s, t, "--once"@, Switch::Once);
    lemma_switch(argv, s, t, "--rate"@, Switch::Rate);
    lemma_switch(argv, s, t, "--loop"@, Switch::Loop);
}

/// A call for help after options that are in order gives help, whatever comes after it.
pub proof fn lemma_help(argv: Seq<Seq<char>>, more: Seq<Seq<char>>, s: Settings, t: Settings)
    requires
        read_args(argv, 0, s) == Outcome::Run(t),
    ensures
        read_args(argv + (seq!["-h"@] + more), 0, s) == Outcome::Help,
        read_args(argv + (seq!["--help"@] + more), 0, s) == Outcome::Help,
{
    lemma_keys();
    let a = seq!["-h"@] + more;
    let b = seq!["--help"@] + more;
    lemma_read_on(argv, a, 0, s, t);
    lemma_read_on(argv, b, 0, s, t);
    assert((argv + a)[argv.len() as int] == "-h"@);
    assert((argv + b)[argv.len() as int] == "--help"@);
}

// ---------------------------------------------------------------- the time of day

/// A time of day shows its hours, minutes and seconds in two digits each.
pub proof fn lemma_clock(d: int)
    requires
        0 <= d < 86_400,
    ensures
        ({
            let t = clock_text(d);
            let h = number(t.subrange(0, 2));
            let m = number(t.subrange(3, 5));
            let s = number(t.subrange(6, 8));
            &&& t.len() == 8
            &&& t[2] == ':' && t[5] == ':'
            &&& h < 24 && m < 60 && s < 60
            &&& h * 3600 + m * 60 + s == d
        }),
{
    reveal_strlit(":");
    let a = (d / 3600) as nat;
    let b = (d % 3600 / 60) as nat;
    let c = (d % 60) as nat;
    assert(ten(2) == 100) by {
        reveal_with_fuel(ten, 3);
    }
    lemma_filled(a, 2);
    lemma_filled(b, 2);
    lemma_filled(c, 2);
    let t = clock_text(d);
    assert(t.subrange(0, 2) =~= crate::text::zero_fill(numeral(a), 2));
    assert(t.subrange(3, 5) =~= crate::text::zero_fill(numeral(b), 2));
    assert(t.subrange(6, 8) =~= crate::text::zero_fill(numeral(c), 2));
}

// ---------------------------------------------------------------- counts

/// Whether server `i` of the table is up, and card `j` of it is such a card.
pub open spec fn is_held(w: Which, m: Seq<(Seq<char>, Sample)>, i: int, j: int) -> bool {
    &&& 0 <= i < m.len()
    &&& m[i].1.status == Status::Up
    &&& 0 <= j < m[i].1.gpus@.len()
    &&& is_such(w, m[i].1.gpus@[j])
}

/// The places of all such cards in the table.
pub open spec fn held_places(w: Which, m: Seq<(Seq<char>, Sample)>) -> Set<(int, int)> {
    Set::new(|p: (int, int)| is_held(w, m, p.0, p.1))
}

spec fn held_to(w: Which, m: Seq<(Seq<char>, Sample)>, n: int, k: int) -> Set<(int, int)> {
    Set::new(
        |p: (int, int)| is_held(w, m, p.0, p.1) && (p.0 < n || (p.0 == n && p.1 < k)),
    )
}

spec fn held_count(w: Which, gpus: Seq<Gpu>, k: int) -> int {
    match w {
        Which::All => k,
        Which::Working => busy_count(gpus, k) as int,
        Which::Idle => k - busy_count(gpus, k),
    }
}

spec fn held_total(w: Which, m: Seq<(Seq<char>, Sample)>, n: int) -> int {
    match w {
        Which::All => cards(m, n) as int,
        Which::Working => busies(m, n) as int,
        Which::Idle => cards(m, n) - busies(m, n),
    }
}

proof fn lemma_held_cards(w: Which, m: Seq<(Seq<char>, Sample)>, n: int, k: int)
    requires
        0 <= n < m.len(),
        m[n].1.status == Status::Up,
        0 <= k <= m[n].1.gpus@.len(),
        held_to(w, m, n, 0).finite(),
    ensures
        held_to(w, m, n, k).finite(),
        held_to(w, m, n, k).len() == held_to(w, m, n, 0).len() + held_count(w, m[n].1.gpus@, k),
    decreases k,
{
    let gpus = m[n].1.gpus@;
    if k > 0 {
        lemma_held_cards(w, m, n, k - 1);
        lemma_busy_works(gpus[k - 1]);
        let a = held_to(w, m, n, k - 1);
        let b = held_to(w, m, n, k);
        if is_such(w, gpus[k - 1]) {
            assert(b =~= a.insert((n, k - 1)));
            assert(!a.contains((n, k - 1)));
        } else {
            assert(b =~= a);
        }
    }
}

proof fn lemma_held_to(w: Which, m: Seq<(Seq<char>, Sample)>, n: int)
    requires
        0 <= n <= m.len(),
    ensures
        held_to(w, m, n, 0).finite(),
        held_to(w, m, n, 0).len() == held_total(w, m, n),
    decreases n,
{
    if n == 0 {
        assert(held_to(w, m, 0, 0) =~= Set::empty());
    } else {
        lemma_held_to(w, m, n - 1);
        let b = held_to(w, m, n, 0);
        if m[n - 1].1.status == Status::Up {
            let k = m[n - 1].1.gpus@.len() as int;
            lemma_held_cards(w, m, n - 1, k);
            assert(b =~= held_to(w, m, n - 1, k));
        } else {
            assert(b =~= held_to(w, m, n - 1, 0));
        }
    }
}

/// The cards that are said to be there, and those that are said to be busy, are as many as there
/// are places of such cards in servers that are up.
pub proof fn lemma_table_cards(m: Seq<(Seq<char>, Sample)>)
    ensures
        held_places(Which::All, m).finite(),
        held_places(Which::All, m).len() == cards(m, m.len() as int),
        held_places(Which::Working, m).finite(),
        held_places(Which::Working, m).len() == busies(m, m.len() as int),
        held_places(Which::Idle, m).finite(),
        held_places(Which::Idle, m).len() == cards(m, m.len() as int) - busies(m, m.len() as int),
{
    let n = m.len() as int;
    lemma_held_to(Which::All, m, n);
    lemma_held_to(Which::Working, m, n);
    lemma_held_to(Which::Idle, m, n);
    assert(held_places(Which::Idle, m) =~= held_to(Which::Idle, m, n, 0));
    assert(held_places(Which::All, m) =~= held_to(Which::All, m, n, 0));
    assert(held_places(Which::Working, m) =~= held_to(Which::Working, m, n, 0));
}

/// The entries of servers that are up.
pub open spec fn up_entry() -> spec_fn((Seq<char>, Sample)) -> bool {
    |e: (Seq<char>, Sample)| e.1.status is Up
}

/// The servers that are said to be up are those of the table that are.
pub proof fn lemma_table_ups(m: Seq<(Seq<char>, Sample)>, k: int)
    requires
        0 <= k <= m.len(),
    ensures
        ups(m, k) == m.take(k).filter(up_entry()).len(),
    decreases k,
{
    reveal(Seq::filter);
    if k > 0 {
        lemma_table_ups(m, k - 1);
        assert(m.take(k).drop_last() =~= m.take(k - 1));
        assert(m.take(k).last() == m[k - 1]);
    }
}

/// A text that is filled up begins with itself, is as wide as it was to be or as it was, and has
/// blanks only after itself.
pub proof fn lemma_padded(t: Seq<char>, w: int)
    ensures
        t.is_prefix_of(padded(t, w)),
        padded(t, w).len() == if t.len() < w {
            w
        } else {
            t.len() as int
        },
        forall|i: int| t.len() <= i < padded(t, w).len() ==> #[trigger] padded(t, w)[i] == ' ',
    decreases w,
{
    let r = padded(t, w);
    if t.len() < w {
        lemma_padded(t, w - 1);
        assert(r =~= padded(t, w - 1).push(' '));
        assert forall|i: int| t.len() <= i < r.len() implies #[trigger] r[i] == ' ' by {
            if i < w - 1 {
                assert(padded(t, w - 1)[i] == ' ');
            }
        }
    }
    assert(t =~= r.subrange(0, t.len() as int));
}

} // verus!
