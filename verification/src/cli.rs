//! The command line, and what the program decides and reports between its calls to the outside.

use vstd::prelude::*;
use crate::collect::{total, total_of, Collector, Reading};
use crate::decimal::{
    dec, fixed, fixed_text, literal, parse_i64, parse_whole, parsed_i64, parsed_whole,
};
use crate::double::{at_most, difference, larger, quotient, whole, Double};
use crate::gate::{
    in_order, is_sortable, peak_over, peak_per_sec, within_span, Gate, HARD_CEILING_PER_SEC,
};
use crate::json::{debug_str, str_debug};
use crate::model::{
    busy_count, count_busy, gpu_count, is_active_order, sample_of, up_count, Sample, Server, Status,
};
use crate::table::Table;
use crate::text::{
    chars_of, eq_str, filled, numeral, own, trim, trimmed, u128_numeral, u64_numeral, views,
    zero_fill,
};

verus! {

broadcast use vstd::string::group_string_axioms;

// ---------------------------------------------------------------- arguments

/// What the program was asked to do.
pub struct Args {
    pub config: String,
    pub port: u16,
    pub bind: String,
    pub web: String,
    pub publish: Option<String>,
    pub upload_cmd: Option<String>,
    pub upload_cmd_tick: Option<String>,
    pub upload_cmd_stats: Option<String>,
    pub upload_cmd_summary: Option<String>,
    pub summary_interval: u64,
    pub summary_key: Option<String>,
    pub summary_model: String,
    pub summary_once: Option<String>,
    pub summary_prompt: Option<String>,
    pub summary_timeout: u32,
    pub stats_interval: u64,
    pub interval: u64,
    pub check: bool,
    pub once: bool,
    pub rate: bool,
    pub loop_: bool,
}

/// What arguments say, as text and numbers.
pub ghost struct Settings {
    pub config: Seq<char>,
    pub port: u16,
    pub bind: Seq<char>,
    pub web: Seq<char>,
    pub publish: Option<Seq<char>>,
    pub upload_cmd: Option<Seq<char>>,
    pub upload_cmd_tick: Option<Seq<char>>,
    pub upload_cmd_stats: Option<Seq<char>>,
    pub upload_cmd_summary: Option<Seq<char>>,
    pub summary_interval: u64,
    pub summary_key: Option<Seq<char>>,
    pub summary_model: Seq<char>,
    pub summary_once: Option<Seq<char>>,
    pub summary_prompt: Option<Seq<char>>,
    pub summary_timeout: u32,
    pub stats_interval: u64,
    pub interval: u64,
    pub check: bool,
    pub once: bool,
    pub rate: bool,
    pub loop_: bool,
}

/// An option that takes a value.
#[derive(Debug, Clone, Copy, PartialEq, Eq, Structural)]
pub enum Setting {
    Config,
    Port,
    Bind,
    Web,
    Publish,
    UploadCmd,
    UploadCmdTick,
    UploadCmdStats,
    UploadCmdSummary,
    SummaryKey,
    SummaryModel,
    SummaryOnce,
    SummaryPrompt,
    SummaryTimeout,
    SummaryInterval,
    StatsInterval,
    PublishInterval,
}

/// An option that takes none.
#[derive(Debug, Clone, Copy, PartialEq, Eq, Structural)]
pub enum Switch {
    Check,
    Once,
    Rate,
    Loop,
}

/// What an argument is.
#[derive(Debug, Clone, Copy, PartialEq, Eq, Structural)]
pub enum Key {
    Value(Setting),
    On(Switch),
    Help,
    Unknown,
}

/// What comes of the arguments.
pub ghost enum Outcome {
    Run(Settings),
    Help,
    Fail(Seq<char>),
}

/// A string, as text.
pub open spec fn opt_text(s: Option<String>) -> Option<Seq<char>> {
    match s {
        Some(t) => Some(t@),
        None => None,
    }
}

impl Args {
    /// What the arguments say.
    pub open spec fn settings(self) -> Settings {
        Settings {
            config: self.config@,
            port: self.port,
            bind: self.bind@,
            web: self.web@,
            publish: opt_text(self.publish),
            upload_cmd: opt_text(self.upload_cmd),
            upload_cmd_tick: opt_text(self.upload_cmd_tick),
            upload_cmd_stats: opt_text(self.upload_cmd_stats),
            upload_cmd_summary: opt_text(self.upload_cmd_summary),
            summary_interval: self.summary_interval,
            summary_key: opt_text(self.summary_key),
            summary_model: self.summary_model@,
            summary_once: opt_text(self.summary_once),
            summary_prompt: opt_text(self.summary_prompt),
            summary_timeout: self.summary_timeout,
            stats_interval: self.stats_interval,
            interval: self.interval,
            check: self.check,
            once: self.once,
            rate: self.rate,
            loop_: self.loop_,
        }
    }
}

/// What holds where no argument says otherwise.
pub open spec fn defaults(config: Seq<char>, web: Seq<char>) -> Settings {
    Settings {
        config,
        port: 8899,
        bind: "127.0.0.1"@,
        web,
        publish: None,
        upload_cmd: None,
        upload_cmd_tick: None,
        upload_cmd_stats: None,
        upload_cmd_summary: None,
        summary_interval: 300,
        summary_key: None,
        summary_model: "gemini-2.5-flash"@,
        summary_once: None,
        summary_prompt: None,
        summary_timeout: 60,
        stats_interval: 60,
        interval: 2,
        check: false,
        once: false,
        rate: false,
        loop_: false,
    }
}

/// What an argument is.
pub open spec fn key_of(k: Seq<char>) -> Key {
    if k == "-c"@ || k == "--config"@ {
        Key::Value(Setting::Config)
    } else if k == "-p"@ || k == "--port"@ {
        Key::Value(Setting::Port)
    } else if k == "--bind"@ {
        Key::Value(Setting::Bind)
    } else if k == "--web"@ {
        Key::Value(Setting::Web)
    } else if k == "--publish"@ {
        Key::Value(Setting::Publish)
    } else if k == "--upload-cmd"@ {
        Key::Value(Setting::UploadCmd)
    } else if k == "--upload-cmd-tick"@ {
        Key::Value(Setting::UploadCmdTick)
    } else if k == "--upload-cmd-stats"@ {
        Key::Value(Setting::UploadCmdStats)
    } else if k == "--upload-cmd-summary"@ {
        Key::Value(Setting::UploadCmdSummary)
    } else if k == "--summary-key"@ {
        Key::Value(Setting::SummaryKey)
    } else if k == "--summary-model"@ {
        Key::Value(Setting::SummaryModel)
    } else if k == "--summary-once"@ {
        Key::Value(Setting::SummaryOnce)
    } else if k == "--summary-prompt"@ {
        Key::Value(Setting::SummaryPrompt)
    } else if k == "--summary-timeout"@ {
        Key::Value(Setting::SummaryTimeout)
    } else if k == "--summary-interval"@ {
        Key::Value(Setting::SummaryInterval)
    } else if k == "--stats-interval"@ {
        Key::Value(Setting::StatsInterval)
    } else if k == "--publish-interval"@ {
        Key::Value(Setting::PublishInterval)
    } else if k == "--check"@ {
        Key::On(Switch::Check)
    } else if k == "--once"@ {
        Key::On(Switch::Once)
    } else if k == "--rate"@ {
        Key::On(Switch::Rate)
    } else if k == "--loop"@ {
        Key::On(Switch::Loop)
    } else if k == "-h"@ || k == "--help"@ {
        Key::Help
    } else {
        Key::Unknown
    }
}

/// The settings with a value in place of an earlier one; none where the value is no number and
/// has to be one.
pub open spec fn with_value(s: Settings, f: Setting, v: Seq<char>) -> Option<Settings> {
    match f {
        Setting::Config => Some(Settings { config: v, ..s }),
        Setting::Port => match parsed_whole(v, u16::MAX as nat) {
            Some(n) => Some(Settings { port: n as u16, ..s }),
            None => None,
        },
        Setting::Bind => Some(Settings { bind: v, ..s }),
        Setting::Web => Some(Settings { web: v, ..s }),
        Setting::Publish => Some(Settings { publish: Some(v), ..s }),
        Setting::UploadCmd => Some(Settings { upload_cmd: Some(v), ..s }),
        Setting::UploadCmdTick => Some(Settings { upload_cmd_tick: Some(v), ..s }),
        Setting::UploadCmdStats => Some(Settings { upload_cmd_stats: Some(v), ..s }),
        Setting::UploadCmdSummary => Some(Settings { upload_cmd_summary: Some(v), ..s }),
        Setting::SummaryKey => Some(Settings { summary_key: Some(v), ..s }),
        Setting::SummaryModel => Some(Settings { summary_model: v, ..s }),
        Setting::SummaryOnce => Some(Settings { summary_once: Some(v), ..s }),
        Setting::SummaryPrompt => Some(Settings { summary_prompt: Some(v), ..s }),
        Setting::SummaryTimeout => match parsed_whole(v, u32::MAX as nat) {
            Some(n) => Some(Settings { summary_timeout: n as u32, ..s }),
            None => None,
        },
        Setting::SummaryInterval => match parsed_whole(v, u64::MAX as nat) {
            Some(n) => Some(Settings { summary_interval: n as u64, ..s }),
            None => None,
        },
        Setting::StatsInterval => match parsed_whole(v, u64::MAX as nat) {
            Some(n) => Some(Settings { stats_interval: n as u64, ..s }),
            None => None,
        },
        Setting::PublishInterval => match parsed_whole(v, u64::MAX as nat) {
            Some(n) => Some(Settings { interval: n as u64, ..s }),
            None => None,
        },
    }
}

/// What is said of a value that is no number.
pub open spec fn complaint(f: Setting) -> Seq<char> {
    match f {
        Setting::Port => "bad port"@,
        Setting::SummaryTimeout => "bad --summary-timeout"@,
        Setting::SummaryInterval => "bad --summary-interval"@,
        Setting::StatsInterval => "bad --stats-interval"@,
        _ => "bad interval"@,
    }
}

/// The settings with a switch on.
pub open spec fn switched(s: Settings, w: Switch) -> Settings {
    match w {
        Switch::Check => Settings { check: true, ..s },
        Switch::Once => Settings { once: true, ..s },
        Switch::Rate => Settings { rate: true, ..s },
        Switch::Loop => Settings { loop_: true, ..s },
    }
}

/// What comes of the arguments from `i` on, where those before have given `s`.
pub open spec fn read_args(argv: Seq<Seq<char>>, i: int, s: Settings) -> Outcome
    decreases argv.len() - i,
{
    if i < 0 || i >= argv.len() {
        Outcome::Run(s)
    } else {
        match key_of(argv[i]) {
            Key::Help => Outcome::Help,
            Key::Unknown => Outcome::Fail("unknown argument "@ + str_debug(argv[i])),
            Key::On(w) => read_args(argv, i + 1, switched(s, w)),
            Key::Value(f) => if i + 1 >= argv.len() {
                Outcome::Fail(argv[i] + " needs a value"@)
            } else {
                match with_value(s, f, argv[i + 1]) {
                    Some(t) => read_args(argv, i + 2, t),
                    None => Outcome::Fail(complaint(f)),
                }
            },
        }
    }
}

fn key(k: &str) -> (r: Key)
    ensures
        r == key_of(k@),
{
    if eq_str(k, "-c") || eq_str(k, "--config") {
        Key::Value(Setting::Config)
    } else if eq_str(k, "-p") || eq_str(k, "--port") {
        Key::Value(Setting::Port)
    } else if eq_str(k, "--bind") {
        Key::Value(Setting::Bind)
    } else if eq_str(k, "--web") {
        Key::Value(Setting::Web)
    } else if eq_str(k, "--publish") {
        Key::Value(Setting::Publish)
    } else if eq_str(k, "--upload-cmd") {
        Key::Value(Setting::UploadCmd)
    } else if eq_str(k, "--upload-cmd-tick") {
        Key::Value(Setting::UploadCmdTick)
    } else if eq_str(k, "--upload-cmd-stats") {
        Key::Value(Setting::UploadCmdStats)
    } else if eq_str(k, "--upload-cmd-summary") {
        Key::Value(Setting::UploadCmdSummary)
    } else if eq_str(k, "--summary-key") {
        Key::Value(Setting::SummaryKey)
    } else if eq_str(k, "--summary-model") {
        Key::Value(Setting::SummaryModel)
    } else if eq_str(k, "--summary-once") {
        Key::Value(Setting::SummaryOnce)
    } else if eq_str(k, "--summary-prompt") {
        Key::Value(Setting::SummaryPrompt)
    } else if eq_str(k, "--summary-timeout") {
        Key::Value(Setting::SummaryTimeout)
    } else if eq_str(k, "--summary-interval") {
        Key::Value(Setting::SummaryInterval)
    } else if eq_str(k, "--stats-interval") {
        Key::Value(Setting::StatsInterval)
    } else if eq_str(k, "--publish-interval") {
        Key::Value(Setting::PublishInterval)
    } else if eq_str(k, "--check") {
        Key::On(Switch::Check)
    } else if eq_str(k, "--once") {
        Key::On(Switch::Once)
    } else if eq_str(k, "--rate") {
        Key::On(Switch::Rate)
    } else if eq_str(k, "--loop") {
        Key::On(Switch::Loop)
    } else if eq_str(k, "-h") || eq_str(k, "--help") {
        Key::Help
    } else {
        Key::Unknown
    }
}

fn number_of(v: &str, max: u64) -> (r: Option<u64>)
    ensures
        match r {
            Some(n) => parsed_whole(v@, max as nat) == Some(n as nat) && n <= max,
            None => parsed_whole(v@, max as nat) is None,
        },
{
    let c = chars_of(v);
    parse_whole(c.as_slice(), max)
}

fn complain(f: Setting) -> (r: &'static str)
    ensures
        r@ == complaint(f),
{
    match f {
        Setting::Port => "bad port",
        Setting::SummaryTimeout => "bad --summary-timeout",
        Setting::SummaryInterval => "bad --summary-interval",
        Setting::StatsInterval => "bad --stats-interval",
        _ => "bad interval",
    }
}

impl Args {
    /// What holds where no argument says otherwise.
    pub fn new(config: String, web: String) -> (r: Args)
        ensures
            r.settings() == defaults(config@, web@),
    {
        Args {
            config,
            port: 8899,
            bind: own("127.0.0.1"),
            web,
            publish: None,
            upload_cmd: None,
            upload_cmd_tick: None,
            upload_cmd_stats: None,
            upload_cmd_summary: None,
            summary_interval: 300,
            summary_key: None,
            summary_model: own("gemini-2.5-flash"),
            summary_once: None,
            summary_prompt: None,
            summary_timeout: 60,
            stats_interval: 60,
            interval: 2,
            check: false,
            once: false,
            rate: false,
            loop_: false,
        }
    }

    /// Sets a value, and says whether it could be.
    fn set(&mut self, f: Setting, v: &str) -> (r: bool)
        ensures
            match with_value(old(self).settings(), f, v@) {
                Some(t) => r && final(self).settings() == t,
                None => !r,
            },
    {
        match f {
            Setting::Config => {
                self.config = own(v);
            },
            Setting::Port => match number_of(v, 0xffff) {
                Some(n) => {
                    self.port = n as u16;
                },
                None => {
                    return false;
                },
            },
            Setting::Bind => {
                self.bind = own(v);
            },
            Setting::Web => {
                self.web = own(v);
            },
            Setting::Publish => {
                self.publish = Some(own(v));
            },
            Setting::UploadCmd => {
                self.upload_cmd = Some(own(v));
            },
            Setting::UploadCmdTick => {
                self.upload_cmd_tick = Some(own(v));
            },
            Setting::UploadCmdStats => {
                self.upload_cmd_stats = Some(own(v));
            },
            Setting::UploadCmdSummary => {
                self.upload_cmd_summary = Some(own(v));
            },
            Setting::SummaryKey => {
                self.summary_key = Some(own(v));
            },
            Setting::SummaryModel => {
                self.summary_model = own(v);
            },
            Setting::SummaryOnce => {
                self.summary_once = Some(own(v));
            },
            Setting::SummaryPrompt => {
                self.summary_prompt = Some(own(v));
            },
            Setting::SummaryTimeout => match number_of(v, 0xffff_ffff) {
                Some(n) => {
                    self.summary_timeout = n as u32;
                },
                None => {
                    return false;
                },
            },
            Setting::SummaryInterval => match number_of(v, u64::MAX) {
                Some(n) => {
                    self.summary_interval = n;
                },
                None => {
                    return false;
                },
            },
            Setting::StatsInterval => match number_of(v, u64::MAX) {
                Some(n) => {
                    self.stats_interval = n;
                },
                None => {
                    return false;
                },
            },
            Setting::PublishInterval => match number_of(v, u64::MAX) {
                Some(n) => {
                    self.interval = n;
                },
                None => {
                    return false;
                },
            },
        }
        true
    }

    fn switch(&mut self, w: Switch)
        ensures
            final(self).settings() == switched(old(self).settings(), w),
    {
        match w {
            Switch::Check => {
                self.check = true;
            },
            Switch::Once => {
                self.once = true;
            },
            Switch::Rate => {
                self.rate = true;
            },
            Switch::Loop => {
                self.loop_ = true;
            },
        }
    }
}

/// Reads the arguments, without the program's own name. `config` and `web` are where the
/// configuration and the page are where no argument says. None is for a call for help.
pub fn parse_args(argv: &[String], config: String, web: String) -> (r: Result<Option<Args>, String>)
    ensures
        read_args(views(argv@), 0, defaults(config@, web@)) == match r {
            Ok(Some(a)) => Outcome::Run(a.settings()),
            Ok(None) => Outcome::Help,
            Err(e) => Outcome::Fail(e@),
        },
{
    let ghost all = views(argv@);
    let ghost given = defaults(config@, web@);
    let mut a = Args::new(config, web);
    let n: usize = argv.len();
    let mut i: usize = 0;
    while i < n
        invariant
            i <= n,
            n == argv@.len(),
            all == views(argv@),
            given == defaults(config@, web@),
            read_args(all, 0, given) == read_args(all, i as int, a.settings()),
        decreases n - i,
    {
        assert(all[i as int] == argv@[i as int]@);
        match key(argv[i].as_str()) {
            Key::Help => {
                return Ok(None);
            },
            Key::Unknown => {
                let mut m = own("unknown argument ");
                m.append(debug_str(argv[i].as_str()).as_str());
                return Err(m);
            },
            Key::On(w) => {
                a.switch(w);
                i = i + 1;
            },
            Key::Value(f) => {
                if n - i < 2 {
                    let mut m = own(argv[i].as_str());
                    m.append(" needs a value");
                    return Err(m);
                }
                assert(all[i + 1] == argv@[i + 1]@);
                if !a.set(f, argv[i + 1].as_str()) {
                    return Err(own(complain(f)));
                }
                i = i + 2;
            },
        }
    }
    Ok(Some(a))
}

pub(crate) proof fn lemma_read_on(argv: Seq<Seq<char>>, more: Seq<Seq<char>>, i: int, s: Settings, t: Settings)
    requires
        0 <= i <= argv.len(),
        read_args(argv, i, s) == Outcome::Run(t),
    ensures
        read_args(argv + more, i, s) == read_args(argv + more, argv.len() as int, t),
    decreases argv.len() - i,
{
    if i < argv.len() {
        let all = argv + more;
        assert(all[i] == argv[i]);
        match key_of(argv[i]) {
            Key::On(w) => {
                lemma_read_on(argv, more, i + 1, switched(s, w), t);
            },
            Key::Value(f) => {
                assert(all[i + 1] == argv[i + 1]);
                match with_value(s, f, argv[i + 1]) {
                    Some(u) => {
                        lemma_read_on(argv, more, i + 2, u, t);
                    },
                    None => {},
                }
            },
            _ => {},
        }
    }
}

/// An option that is given last decides, whatever was given before.
pub proof fn lemma_last_decides(
    argv: Seq<Seq<char>>,
    s: Settings,
    t: Settings,
    k: Seq<char>,
    f: Setting,
    v: Seq<char>,
)
    requires
        read_args(argv, 0, s) == Outcome::Run(t),
        key_of(k) == Key::Value(f),
    ensures
        read_args(argv + seq![k, v], 0, s) == match with_value(t, f, v) {
            Some(u) => Outcome::Run(u),
            None => Outcome::Fail(complaint(f)),
        },
{
    let all = argv + seq![k, v];
    lemma_read_on(argv, seq![k, v], 0, s, t);
    assert(all[argv.len() as int] == k);
    assert(all[argv.len() as int + 1] == v);
    match with_value(t, f, v) {
        Some(u) => {
            assert(read_args(all, all.len() as int, u) == Outcome::Run(u));
        },
        None => {},
    }
}

/// What is printed for a call for help.
pub const HELP: &'static str = "hilmon - HIL GPU monitor\n\n\
hilmon                        collect + serve on 127.0.0.1:8899\n\
hilmon --check                connect, report each server, exit\n\
hilmon --once                 one snapshot as JSON, exit\n\
hilmon --publish DIR [--loop] write status.json + page for upload\n\
hilmon --rate                 show the SSH rate ceiling and history\n\n\
--config PATH            servers.json (default: beside the binary)\n\
--port N                 listen port (default 8899)\n\
--bind ADDR              listen address (default 127.0.0.1)\n\
--web DIR                directory holding index.html and icons/\n\
--publish-interval SEC   upload cadence with --loop (default 2)\n\
--upload-cmd CMD         run in DIR after the FIRST publish\n\
--upload-cmd-tick CMD    run in DIR on every later tick\n\
--upload-cmd-stats CMD   run in DIR after each stats.json rewrite\n\
--stats-interval SEC     stats.json cadence (default 60)\n\
--summary-key PATH       file holding a Gemini API key (default:\n\
~/.hilgpu/gemini.key; absent = feature off)\n\
--summary-model NAME     Gemini model (default gemini-2.5-flash)\n\
--summary-interval SEC   summary.json cadence (default 300)\n\
--upload-cmd-summary CMD run in DIR after each summary rewrite";

// ---------------------------------------------------------------- the time of day

/// A time of day, `d` seconds after midnight.
pub open spec fn clock_text(d: int) -> Seq<char> {
    zero_fill(numeral((d / 3600) as nat), 2) + ":"@ + zero_fill(numeral((d % 3600 / 60) as nat), 2)
        + ":"@ + zero_fill(numeral((d % 60) as nat), 2)
}

/// The local time of day, for the log: a log without times cannot say when it stopped.
/// `offset` is how many seconds the clock is ahead of UTC.
pub fn stamp(secs: i64, offset: i64) -> (r: String)
    ensures
        r@ == clock_text(secs.wrapping_add(offset) as int % 86_400),
{
    let t: i64 = secs.wrapping_add(offset);
    let d: u64 = if t >= 0 {
        (t % 86_400) as u64
    } else {
        let back: u64 = ((-(t as i128)) % 86_400) as u64;
        if back == 0 {
            0
        } else {
            86_400 - back
        }
    };
    assert(d == t as int % 86_400);
    let mut s = filled(d / 3600, 2);
    s.append(":");
    s.append(filled(d % 3600 / 60, 2).as_str());
    s.append(":");
    s.append(filled(d % 60, 2).as_str());
    s
}

/// How many seconds the clock is ahead of UTC, where `out` is what was printed of the minutes;
/// zero where that is no number.
pub fn offset_of(out: &str) -> (r: i64)
    ensures
        r == match parsed_i64(trimmed(out@)) {
            Some(m) => (m as i64).wrapping_mul(60),
            None => 0,
        },
{
    let v = chars_of(out);
    match parse_i64(trim(v.as_slice())) {
        Some(m) => m.wrapping_mul(60),
        None => 0,
    }
}

// ---------------------------------------------------------------- counts

/// How many of the first `k` samples are of servers that respond.
pub open spec fn ups(m: Seq<(Seq<char>, Sample)>, k: int) -> nat
    decreases k,
{
    if k <= 0 {
        0
    } else {
        ups(m, k - 1) + if m[k - 1].1.status == Status::Up {
            1nat
        } else {
            0
        }
    }
}

/// How many cards those servers have.
pub open spec fn cards(m: Seq<(Seq<char>, Sample)>, k: int) -> nat
    decreases k,
{
    if k <= 0 {
        0
    } else {
        cards(m, k - 1) + if m[k - 1].1.status == Status::Up {
            m[k - 1].1.gpus@.len()
        } else {
            0
        }
    }
}

/// How many of the cards are busy.
pub open spec fn busies(m: Seq<(Seq<char>, Sample)>, k: int) -> nat
    decreases k,
{
    if k <= 0 {
        0
    } else {
        busies(m, k - 1) + if m[k - 1].1.status == Status::Up {
            busy_count(m[k - 1].1.gpus@, m[k - 1].1.gpus@.len() as int)
        } else {
            0
        }
    }
}

/// How many servers respond.
pub fn count_up(samples: &Table<Sample>) -> (r: usize)
    ensures
        r == ups(samples@, samples@.len() as int),
{
    let mut n: usize = 0;
    let mut k: usize = 0;
    while k < samples.entries.len()
        invariant
            k <= samples@.len(),
            n <= k,
            n == ups(samples@, k as int),
        decreases samples@.len() - k,
    {
        if samples.entries[k].1.status == Status::Up {
            n = n + 1;
        }
        k = k + 1;
    }
    n
}

fn count_cards(samples: &Table<Sample>) -> (r: (u128, u128))
    ensures
        r.0 == cards(samples@, samples@.len() as int),
        r.1 == busies(samples@, samples@.len() as int),
        r.1 <= r.0,
{
    let mut all: u128 = 0;
    let mut busy: u128 = 0;
    let mut k: usize = 0;
    while k < samples.entries.len()
        invariant
            k <= samples@.len(),
            all == cards(samples@, k as int),
            busy == busies(samples@, k as int),
            busy <= all <= k * 0xffff_ffff_ffff_ffff,
        decreases samples@.len() - k,
    {
        let d: &Sample = &samples.entries[k].1;
        if d.status == Status::Up {
            let n: usize = d.gpus.len();
            assert(k * 0xffff_ffff_ffff_ffff + 0xffff_ffff_ffff_ffff <= 0xffff_ffff_ffff_ffff
                * 0xffff_ffff_ffff_ffff) by (nonlinear_arith)
                requires
                    k < 0xffff_ffff_ffff_ffff,
            ;
            all = all + n as u128;
            busy = busy + count_busy(d.gpus.as_slice()) as u128;
        }
        k = k + 1;
    }
    (all, busy)
}

// ---------------------------------------------------------------- waiting for the streams

/// For how many seconds in a row no server may have come up before the rest are given up.
pub const STALL_LIMIT: u64 = 12;

/// The wait for the first samples. It does not go on until all servers are up: one that is
/// switched off would make it go on for good.
pub struct Waiting {
    pub n: usize,
    pub left: u64,
    pub best: usize,
    pub stalled: u64,
}

impl Waiting {
    /// A wait for `n` servers, for `secs` seconds at most.
    pub fn new(n: usize, secs: u64) -> (r: Waiting)
        ensures
            r == (Waiting { n, left: secs, best: 0, stalled: 0 }),
    {
        Waiting { n, left: secs, best: 0, stalled: 0 }
    }

    /// Whether the wait has not gone on for longer than it was to.
    pub open spec fn wf(self) -> bool {
        self.stalled + self.left <= u64::MAX
    }

    /// Takes in how many servers are up, and says whether the wait is over. Where it is not, a
    /// second is to pass before the next call.
    pub fn next(&mut self, up: usize) -> (r: bool)
        requires
            old(self).wf(),
        ensures
            final(self).wf(),
            final(self).n == old(self).n,
            final(self).left == if old(self).left == 0 {
                0
            } else {
                old(self).left - 1
            },
            r == if old(self).left == 0 || up >= old(self).n {
                true
            } else {
                up <= old(self).best && old(self).best > 0 && old(self).stalled + 1 >= STALL_LIMIT
            },
            final(self).best == if old(self).left > 0 && old(self).n > up > old(self).best {
                up
            } else {
                old(self).best
            },
            final(self).stalled == if old(self).left == 0 || up >= old(self).n {
                old(self).stalled as int
            } else if up > old(self).best {
                0
            } else {
                old(self).stalled + 1
            },
    {
        if self.left == 0 {
            return true;
        }
        self.left = self.left - 1;
        if up >= self.n {
            return true;
        }
        if up > self.best {
            self.best = up;
            self.stalled = 0;
            false
        } else {
            self.stalled = self.stalled + 1;
            self.best > 0 && self.stalled >= STALL_LIMIT
        }
    }
}

// ---------------------------------------------------------------- the report on the servers

/// `k` blanks.
pub open spec fn blanks(k: int) -> Seq<char>
    decreases k,
{
    if k <= 0 {
        seq![]
    } else {
        blanks(k - 1).push(' ')
    }
}

/// A text, filled up on the right with blanks to `w` characters.
pub open spec fn padded(t: Seq<char>, w: int) -> Seq<char> {
    t + blanks(w - t.len())
}

fn pad(t: &str, w: usize) -> (r: String)
    ensures
        r@ == padded(t@, w as int),
{
    let mut s = own(t);
    let mut n: usize = chars_of(t).len();
    let mut k: usize = 0;
    assert(t@ + blanks(0) =~= t@);
    while n < w
        invariant
            n == t@.len() + k,
            n <= w || k == 0,
            s@ == t@ + blanks(k as int),
        decreases w - n,
    {
        proof {
            assert((t@ + blanks(k as int)).push(' ') =~= t@ + blanks(k + 1));
        }
        s.push(' ');
        k = k + 1;
        n = n + 1;
    }
    proof {
        if k == 0 {
            assert(blanks(w - t@.len()) =~= blanks(0));
        }
    }
    s
}

/// The line on a server.
pub open spec fn server_line(s: Server, d: Sample) -> Seq<char> {
    let gpus = d.gpus@;
    let n = gpus.len();
    if d.status == Status::Up {
        "  OK   "@ + padded(s.name@, 5) + " "@ + padded(s.host@, 18) + " "@ + numeral(n)
            + " GPU  "@ + numeral(busy_count(gpus, n as int)) + "/"@ + numeral(n) + " busy  "@
            + fixed(total_of(gpus, Reading::Power, n as int), 0) + " W\n"@
    } else {
        "  FAIL "@ + padded(s.name@, 5) + " "@ + padded(s.host@, 18) + " "@ + d.error@ + "\n"@
    }
}

/// The lines on the first `k` servers; none on one without a sample.
pub open spec fn server_lines(
    order: Seq<&Server>,
    samples: Seq<(Seq<char>, Sample)>,
    k: int,
) -> Seq<char>
    decreases k,
{
    if k <= 0 {
        seq![]
    } else {
        server_lines(order, samples, k - 1) + match sample_of(samples, order[k - 1].name@) {
            Some(d) => server_line(*order[k - 1], d),
            None => seq![],
        }
    }
}

/// The report on the servers.
pub open spec fn check_text(order: Seq<&Server>, samples: Seq<(Seq<char>, Sample)>) -> Seq<char> {
    let n = order.len() as int;
    server_lines(order, samples, n) + "\n"@ + numeral(up_count(order, samples, n)) + "/"@
        + numeral(n as nat) + " up, "@ + numeral(gpu_count(order, samples, n))
        + " GPUs visible"@
}

fn line_on(s: &Server, d: &Sample) -> (r: String)
    ensures
        r@ == server_line(*s, *d),
{
    let mut t: String;
    if d.status == Status::Up {
        let n = u64_numeral(d.gpus.len() as u64);
        let busy = u64_numeral(count_busy(d.gpus.as_slice()) as u64);
        let watts = total(d.gpus.as_slice(), Reading::Power);
        t = own("  OK   ");
        t.append(pad(s.name.as_str(), 5).as_str());
        t.append(" ");
        t.append(pad(s.host.as_str(), 18).as_str());
        t.append(" ");
        t.append(n.as_str());
        t.append(" GPU  ");
        t.append(busy.as_str());
        t.append("/");
        t.append(n.as_str());
        t.append(" busy  ");
        t.append(fixed_text(watts, 0).as_str());
        t.append(" W\n");
    } else {
        t = own("  FAIL ");
        t.append(pad(s.name.as_str(), 5).as_str());
        t.append(" ");
        t.append(pad(s.host.as_str(), 18).as_str());
        t.append(" ");
        t.append(d.error.as_str());
        t.append("\n");
    }
    t
}

fn report_on(order: &[&Server], samples: &Table<Sample>) -> (r: String)
    ensures
        r@ == check_text(order@, samples@),
{
    let mut t = String::new();
    let mut up: usize = 0;
    let mut gpus: u128 = 0;
    let mut k: usize = 0;
    assert(t@ =~= server_lines(order@, samples@, 0));
    while k < order.len()
        invariant
            k <= order@.len(),
            t@ == server_lines(order@, samples@, k as int),
            up <= k,
            up == up_count(order@, samples@, k as int),
            gpus == gpu_count(order@, samples@, k as int),
            gpus <= k * 0xffff_ffff_ffff_ffff,
        decreases order@.len() - k,
    {
        let ghost held = t@;
        match samples.get(order[k].name.as_str()) {
            Some(d) => {
                if d.status == Status::Up {
                    let n: usize = d.gpus.len();
                    assert(k * 0xffff_ffff_ffff_ffff + 0xffff_ffff_ffff_ffff
                        <= 0xffff_ffff_ffff_ffff * 0xffff_ffff_ffff_ffff) by (nonlinear_arith)
                        requires
                            k < 0xffff_ffff_ffff_ffff,
                    ;
                    up = up + 1;
                    gpus = gpus + n as u128;
                }
                t.append(line_on(order[k], d).as_str());
            },
            None => {
                assert(held + Seq::<char>::empty() =~= held);
            },
        }
        k = k + 1;
    }
    t.append("\n");
    t.append(u64_numeral(up as u64).as_str());
    t.append("/");
    t.append(u64_numeral(order.len() as u64).as_str());
    t.append(" up, ");
    t.append(u128_numeral(gpus).as_str());
    t.append(" GPUs visible");
    t
}

/// The report on the servers, as a check prints it.
pub fn check_report(c: &Collector) -> (r: String)
    ensures
        exists|p: Seq<int>, order: Seq<&Server>|
            #![trigger is_active_order(c.cfg.servers@, p), check_text(order, c.samples@)]
            is_active_order(c.cfg.servers@, p) && order.len() == p.len() && (forall|i: int|
                0 <= i < p.len() ==> *#[trigger] order[i] == c.cfg.servers@[p[i]]) && r@
                == check_text(order, c.samples@),
{
    let order = c.cfg.active();
    report_on(order.as_slice(), &c.samples)
}

// ---------------------------------------------------------------- the report on the rate

/// The report on the limits and on the connections that were opened.
pub open spec fn rate_text(g: Gate, file: Seq<char>, hist: Seq<Double>, t: Double) -> Seq<char> {
    let n = hist.len() as int;
    "SSH rate gate\n  file             : "@ + file + "\n  min gap          : "@ + fixed(g.min_gap, 2)
        + "s between connections\n  window           : "@ + numeral(g.max_per_window as nat)
        + " connections / "@ + fixed(g.window, 0) + "s\n  sustained ceiling: "@ + fixed(g.rate(), 2)
        + " conn/sec\n  hard ceiling     : "@ + fixed(whole(HARD_CEILING_PER_SEC as int), 2)
        + " conn/sec (not configurable higher)\n  campus limit     : ~60 conn/sec\n  margin           : "@
        + fixed(quotient(whole(60), larger(g.rate(), dec(1, -9))), 0)
        + "x below the campus limit\nrecent history\n  last 1s / 10s / 60s : "@ + numeral(
        within_span(hist, t, whole(1), n).len(),
    ) + " / "@ + numeral(within_span(hist, t, whole(10), n).len()) + " / "@ + numeral(
        within_span(hist, t, whole(60), n).len(),
    ) + "\n  peak in any 1s      : "@ + numeral(peak_over(in_order(hist), n).0 as nat)
}

fn count_within(h: &[Double], t: Double, secs: u64) -> (r: usize)
    ensures
        r == within_span(h@, t, whole(secs as int), h@.len() as int).len(),
{
    let span = Double::from_u64(secs);
    let mut n: usize = 0;
    let mut k: usize = 0;
    while k < h.len()
        invariant
            k <= h@.len(),
            n <= k,
            span == whole(secs as int),
            n == within_span(h@, t, span, k as int).len(),
        decreases h@.len() - k,
    {
        if t.minus(h[k]).lt(span) {
            n = n + 1;
        }
        k = k + 1;
    }
    n
}

/// The report on the limits and on the connections that were opened.
pub fn rate_report(g: &Gate, file: &str, hist: Vec<Double>, t: Double) -> (r: String)
    requires
        is_sortable(hist@),
    ensures
        r@ == rate_text(*g, file@, hist@, t),
{
    let ceiling = g.rate_per_sec();
    let margin = Double::from_u64(60).over(ceiling.max(literal(1, -9)));
    let mut s = own("SSH rate gate\n  file             : ");
    s.append(file);
    s.append("\n  min gap          : ");
    s.append(fixed_text(g.min_gap, 2).as_str());
    s.append("s between connections\n  window           : ");
    s.append(u64_numeral(g.max_per_window as u64).as_str());
    s.append(" connections / ");
    s.append(fixed_text(g.window, 0).as_str());
    s.append("s\n  sustained ceiling: ");
    s.append(fixed_text(ceiling, 2).as_str());
    s.append(" conn/sec\n  hard ceiling     : ");
    s.append(fixed_text(Double::from_u64(HARD_CEILING_PER_SEC), 2).as_str());
    s.append(
        " conn/sec (not configurable higher)\n  campus limit     : ~60 conn/sec\n  margin           : ",
    );
    s.append(fixed_text(margin, 0).as_str());
    s.append("x below the campus limit\nrecent history\n  last 1s / 10s / 60s : ");
    s.append(u64_numeral(count_within(hist.as_slice(), t, 1) as u64).as_str());
    s.append(" / ");
    s.append(u64_numeral(count_within(hist.as_slice(), t, 10) as u64).as_str());
    s.append(" / ");
    s.append(u64_numeral(count_within(hist.as_slice(), t, 60) as u64).as_str());
    s.append("\n  peak in any 1s      : ");
    s.append(u64_numeral(peak_per_sec(hist) as u64).as_str());
    s
}

// ---------------------------------------------------------------- publishing

/// What one round of publishing does besides writing the snapshot.
#[derive(Debug, Clone, Copy, PartialEq, Eq, Structural)]
pub struct Plan {
    /// Whether the page is copied.
    pub page: bool,
    /// Whether the statistics are written.
    pub stats: bool,
    /// Whether a summary is asked for.
    pub summary: bool,
    /// Whether old files are deleted.
    pub prune: bool,
}

/// What has been published, and when. The snapshot is small and changes every round, the
/// statistics are large and change once a minute, the page almost never.
pub struct Publisher {
    pub first: bool,
    pub last_summary: Double,
    pub last_stats: Double,
    pub last_prune: Double,
}

/// What an upload command is run for.
#[derive(Debug, Clone, Copy, PartialEq, Eq, Structural)]
pub enum Upload {
    Snapshot,
    Stats,
    Summary,
}

/// Whether `secs` have passed from `last` to `now`.
pub open spec fn has_passed(last: Double, now: Double, secs: u64) -> bool {
    at_most(whole(secs as int), difference(now, last))
}

/// The command for an upload. The first round has one command for all that was written; later
/// ones upload each file by itself, and the snapshot with the first command where it has none
/// of its own.
pub open spec fn command_for(s: Settings, first: bool, u: Upload) -> Option<Seq<char>> {
    match u {
        Upload::Snapshot => if first || s.upload_cmd_tick is None {
            s.upload_cmd
        } else {
            s.upload_cmd_tick
        },
        Upload::Stats => if first {
            None
        } else {
            s.upload_cmd_stats
        },
        Upload::Summary => if first {
            None
        } else {
            s.upload_cmd_summary
        },
    }
}

impl Publisher {
    /// What is done at `now`; `enabled` says whether summaries can be asked for.
    pub open spec fn plan_at(self, s: Settings, now: Double, enabled: bool) -> Plan {
        Plan {
            page: self.first,
            stats: self.first || has_passed(self.last_stats, now, s.stats_interval),
            summary: enabled && has_passed(self.last_summary, now, s.summary_interval),
            prune: has_passed(self.last_prune, now, 86_400),
        }
    }

    /// What is kept once that is done.
    pub open spec fn after(self, p: Plan, now: Double) -> Publisher {
        Publisher {
            first: self.first,
            last_summary: if p.summary {
                now
            } else {
                self.last_summary
            },
            last_stats: if p.stats {
                now
            } else {
                self.last_stats
            },
            last_prune: if p.prune {
                now
            } else {
                self.last_prune
            },
        }
    }

    /// Nothing has been published yet.
    pub fn new(now: Double) -> (r: Publisher)
        ensures
            r == (Publisher {
                first: true,
                last_summary: whole(0),
                last_stats: whole(0),
                last_prune: now,
            }),
    {
        Publisher {
            first: true,
            last_summary: Double::from_u64(0),
            last_stats: Double::from_u64(0),
            last_prune: now,
        }
    }

    /// What is to be done at `now`.
    pub fn plan(&mut self, args: &Args, now: Double, enabled: bool) -> (r: Plan)
        ensures
            r == old(self).plan_at(args.settings(), now, enabled),
            *final(self) == old(self).after(r, now),
    {
        let plan = Plan {
            page: self.first,
            stats: self.first || Double::from_u64(args.stats_interval).le(
                now.minus(self.last_stats),
            ),
            summary: enabled && Double::from_u64(args.summary_interval).le(
                now.minus(self.last_summary),
            ),
            prune: Double::from_u64(86_400).le(now.minus(self.last_prune)),
        };
        if plan.stats {
            self.last_stats = now;
        }
        if plan.summary {
            self.last_summary = now;
        }
        if plan.prune {
            self.last_prune = now;
        }
        plan
    }

    /// The command for an upload, if there is one.
    pub fn command<'a>(&self, args: &'a Args, u: Upload) -> (r: Option<&'a String>)
        ensures
            match r {
                Some(c) => command_for(args.settings(), self.first, u) == Some(c@),
                None => command_for(args.settings(), self.first, u) is None,
            },
    {
        match u {
            Upload::Snapshot => {
                if self.first || args.upload_cmd_tick.is_none() {
                    args.upload_cmd.as_ref()
                } else {
                    args.upload_cmd_tick.as_ref()
                }
            },
            Upload::Stats => {
                if self.first {
                    None
                } else {
                    args.upload_cmd_stats.as_ref()
                }
            },
            Upload::Summary => {
                if self.first {
                    None
                } else {
                    args.upload_cmd_summary.as_ref()
                }
            },
        }
    }

    /// Ends a round, and says whether another is to follow.
    pub fn finish(&mut self, args: &Args) -> (r: bool)
        ensures
            *final(self) == (Publisher { first: false, ..*old(self) }),
            r == args.loop_,
    {
        self.first = false;
        args.loop_
    }
}

/// The first round copies the page and writes the statistics; no later one copies the page, and
/// a later one writes the statistics only when the interval has passed since they were written
/// last.
pub proof fn lemma_stats_cadence(p: Publisher, s: Settings, then_at: Double, now: Double, e: bool)
    ensures
        p.first ==> p.plan_at(s, then_at, e).page && p.plan_at(s, then_at, e).stats,
        ({
            let plan = p.plan_at(s, then_at, e);
            let q = Publisher { first: false, ..p.after(plan, then_at) };
            &&& !q.plan_at(s, now, e).page
            &&& plan.stats ==> q.plan_at(s, now, e).stats == has_passed(
                then_at,
                now,
                s.stats_interval,
            )
            &&& plan.summary && e ==> q.plan_at(s, now, e).summary == has_passed(
                then_at,
                now,
                s.summary_interval,
            )
        }),
{
}

/// Without a way to ask for one, no summary is asked for.
pub proof fn lemma_no_key_no_summary(p: Publisher, s: Settings, now: Double)
    ensures
        !p.plan_at(s, now, false).summary,
{
}

/// How long to wait for the next round, where this one took `spent` seconds: half a second at
/// least.
pub fn pause(interval: u64, spent: Double) -> (r: Double)
    ensures
        r == larger(difference(whole(interval as int), spent), dec(5, -1)),
{
    Double::from_u64(interval).minus(spent).max(literal(5, -1))
}

// ---------------------------------------------------------------- the log of publishing

/// What is said of an upload: whether the command succeeded, or why it could not be run.
pub open spec fn upload_text(outcome: Result<bool, String>) -> Seq<char> {
    match outcome {
        Ok(true) => " | upload ok"@,
        Ok(false) => " | upload FAILED"@,
        Err(e) => " | upload error "@ + e@,
    }
}

/// What is said of an upload.
pub fn upload_note(outcome: &Result<bool, String>) -> (r: String)
    ensures
        r@ == upload_text(*outcome),
{
    match outcome {
        Ok(done) => if *done {
            own(" | upload ok")
        } else {
            own(" | upload FAILED")
        },
        Err(e) => {
            let mut s = own(" | upload error ");
            s.append(e.as_str());
            s
        },
    }
}

/// The line on the start.
pub fn start_note(stamp: &str, n: usize, interval: u64) -> (r: String)
    ensures
        r@ == stamp@ + " START streaming: "@ + numeral(n as nat)
            + " servers, one persistent connection each, publishing every "@ + numeral(
            interval as nat,
        ) + "s"@,
{
    let mut s = own(stamp);
    s.append(" START streaming: ");
    s.append(u64_numeral(n as u64).as_str());
    s.append(" servers, one persistent connection each, publishing every ");
    s.append(u64_numeral(interval).as_str());
    s.append("s");
    s
}

/// The line on the summaries.
pub fn summary_start_note(stamp: &str, model: &str, interval: u64) -> (r: String)
    ensures
        r@ == stamp@ + " summary: "@ + model@ + " every "@ + numeral(interval as nat) + "s"@,
{
    let mut s = own(stamp);
    s.append(" summary: ");
    s.append(model);
    s.append(" every ");
    s.append(u64_numeral(interval).as_str());
    s.append("s");
    s
}

/// The line on the statistics, which had `bytes` bytes.
pub fn stats_note(stamp: &str, bytes: usize) -> (r: String)
    ensures
        r@ == stamp@ + "   stats.json "@ + numeral((bytes / 1024) as nat) + " KB"@,
{
    let mut s = own(stamp);
    s.append("   stats.json ");
    s.append(u64_numeral((bytes / 1024) as u64).as_str());
    s.append(" KB");
    s
}

/// The line on the summary.
pub fn summary_note(stamp: &str) -> (r: String)
    ensures
        r@ == stamp@ + "   summary updated"@,
{
    let mut s = own(stamp);
    s.append("   summary updated");
    s
}

/// The line on the files that were deleted; none where there were none.
pub fn prune_note(gone: usize) -> (r: Option<String>)
    ensures
        match r {
            Some(t) => gone > 0 && t@ == "  stats: pruned "@ + numeral(gone as nat)
                + " old day files"@,
            None => gone == 0,
        },
{
    if gone == 0 {
        return None;
    }
    let mut s = own("  stats: pruned ");
    s.append(u64_numeral(gone as u64).as_str());
    s.append(" old day files");
    Some(s)
}

/// The line on the snapshot.
pub open spec fn published_text(
    stamp: Seq<char>,
    m: Seq<(Seq<char>, Sample)>,
    n: nat,
    public: bool,
) -> Seq<char> {
    let k = m.len() as int;
    stamp + " published "@ + numeral(ups(m, k)) + "/"@ + numeral(n) + " up, "@ + numeral(
        (cards(m, k) - busies(m, k)) as nat,
    ) + "/"@ + numeral(cards(m, k)) + " GPUs free"@ + if public {
        ", redacted"@
    } else {
        ""@
    }
}

/// The line on the snapshot.
pub fn publish_note(stamp: &str, samples: &Table<Sample>, n: usize, public: bool) -> (r: String)
    ensures
        r@ == published_text(stamp@, samples@, n as nat, public),
{
    let up: usize = count_up(samples);
    let (all, busy) = count_cards(samples);
    let mut s = own(stamp);
    s.append(" published ");
    s.append(u64_numeral(up as u64).as_str());
    s.append("/");
    s.append(u64_numeral(n as u64).as_str());
    s.append(" up, ");
    s.append(u128_numeral(all - busy).as_str());
    s.append("/");
    s.append(u128_numeral(all).as_str());
    s.append(" GPUs free");
    s.append(if public {
        ", redacted"
    } else {
        ""
    });
    s
}

// ---------------------------------------------------------------- one summary

/// What is printed before one summary is asked for.
pub fn once_heading(model: &str, prompt: &str, facts: &str) -> (r: String)
    ensures
        r@ == "model   : "@ + model@ + "\nprompt  : "@ + numeral(prompt@.len())
            + " chars\nfacts   : "@ + numeral(facts@.len()) + " chars\n"@,
{
    let mut s = own("model   : ");
    s.append(model);
    s.append("\nprompt  : ");
    s.append(u64_numeral(chars_of(prompt).len() as u64).as_str());
    s.append(" chars\nfacts   : ");
    s.append(u64_numeral(chars_of(facts).len() as u64).as_str());
    s.append(" chars\n");
    s
}

/// What is printed of the answer that came after `secs` seconds, or of why none came.
pub open spec fn once_text(secs: Double, outcome: Result<String, String>) -> Seq<char> {
    match outcome {
        Ok(t) => "--- answer ("@ + fixed(secs, 1) + "s, "@ + numeral(t@.len()) + " chars) ---\n"@
            + t@,
        Err(e) => "--- FAILED after "@ + fixed(secs, 1) + "s ---\n"@ + e@,
    }
}

/// What is printed of the answer, or of why none came.
pub fn once_note(secs: Double, outcome: &Result<String, String>) -> (r: String)
    ensures
        r@ == once_text(secs, *outcome),
{
    match outcome {
        Ok(t) => {
            let mut s = own("--- answer (");
            s.append(fixed_text(secs, 1).as_str());
            s.append("s, ");
            s.append(u64_numeral(chars_of(t.as_str()).len() as u64).as_str());
            s.append(" chars) ---\n");
            s.append(t.as_str());
            s
        },
        Err(e) => {
            let mut s = own("--- FAILED after ");
            s.append(fixed_text(secs, 1).as_str());
            s.append("s ---\n");
            s.append(e.as_str());
            s
        },
    }
}

} // verus!
