//! What is reported of a round, and when rounds are due.

use vstd::prelude::*;
use crate::cli::{
    blanks, cards, check_text, command_for, has_passed, padded, published_text, read_args,
    server_line, server_lines, Outcome, Settings, Upload,
};
use crate::collect::{total_of, Reading};
use crate::commands::{
    held_places, lemma_table_cards, lemma_table_ups, lemma_text_options, up_entry,
};
use crate::counts::{lemma_counts_cards, lemma_counts_servers, places, places_up, Which};
use crate::db::{row_of, stride_for, taken};
use crate::decimal::fixed;
use crate::double::{
    difference, lemma_order, lemma_whole_exact, negated, one, whole, with_sign, Double,
};
use crate::model::{busy_count, Sample, Server};
use crate::pieces::is_word;
use crate::stats::{ranges_from, start_of, step_of};
use crate::text::{
    is_digit, is_space, lemma_numeral_digits, lemma_word_end, numeral, space_end, word_end, words,
};

verus! {

broadcast use vstd::string::group_string_axioms;

// ---------------------------------------------------------------- words

proof fn lemma_ends_shift(s: Seq<char>, n: int, i: int)
    requires
        0 <= n <= i <= s.len(),
    ensures
        space_end(s.skip(n), i - n) == space_end(s, i) - n,
        word_end(s.skip(n), i - n) == word_end(s, i) - n,
    decreases s.len() - i,
{
    if i < s.len() {
        assert(s.skip(n)[i - n] == s[i]);
        lemma_ends_shift(s, n, i + 1);
    }
}

proof fn lemma_words_shift(s: Seq<char>, n: int, i: int)
    requires
        0 <= n <= i <= s.len(),
    ensures
        words(s.skip(n), i - n) == words(s, i),
    decreases s.len() - i,
{
    let a = space_end(s, i);
    lemma_word_end(s, i);
    lemma_ends_shift(s, n, i);
    if a < s.len() {
        let b = word_end(s, a);
        lemma_word_end(s, a);
        lemma_ends_shift(s, n, a);
        assert(s.skip(n).subrange(a - n, b - n) =~= s.subrange(a, b));
        lemma_words_shift(s, n, b);
    }
}

/// Blanks before a text make no word of it, and a word before a blank is the first.
pub proof fn lemma_words(w: Seq<char>, rest: Seq<char>)
    requires
        is_word(w),
        rest.len() > 0 ==> is_space(rest[0]),
    ensures
        words(w + rest, 0) == seq![w] + words(rest, 0),
        words(seq![' '] + rest, 0) == words(rest, 0),
        words(seq![' '] + (w + rest), 0) == seq![w] + words(rest, 0),
{
    let s = w + rest;
    let n = w.len() as int;
    assert(s.subrange(0, n) =~= w);
    lemma_whole_word(s, 0, n, w);
    assert(s.skip(n) =~= rest);
    lemma_words_shift(s, n, n);
    assert(!is_space(s[0])) by {
        assert(s[0] == w[0]);
    }
    assert(space_end(s, 0) == 0);
    lemma_blank_before(rest);
    lemma_blank_before(s);
}

proof fn lemma_whole_word(s: Seq<char>, i: int, n: int, w: Seq<char>)
    requires
        0 <= i <= n == w.len() <= s.len(),
        is_word(w),
        s.subrange(0, n) == w,
        n < s.len() ==> is_space(s[n]),
    ensures
        word_end(s, i) == n,
    decreases n - i,
{
    if i < n {
        assert(s[i] == w[i]) by {
            assert(s.subrange(0, n)[i] == s[i]);
        }
        lemma_whole_word(s, i + 1, n, w);
    }
}

proof fn lemma_blank_before(s: Seq<char>)
    ensures
        words(seq![' '] + s, 0) == words(s, 0),
{
    let t = seq![' '] + s;
    assert(is_space(' '));
    assert(t[0] == ' ');
    assert(space_end(t, 0) == space_end(t, 1));
    assert(t.skip(1) =~= s);
    lemma_words_shift(t, 1, 1);
    lemma_word_end(t, 1);
    assert(words(t, 0) == words(t, 1));
}

proof fn lemma_blanks_before(k: int, s: Seq<char>)
    ensures
        words(blanks(k) + s, 0) == words(s, 0),
    decreases k,
{
    if k <= 0 {
        assert(blanks(k) + s =~= s);
    } else {
        lemma_blanks_before(k - 1, seq![' '] + s);
        assert(blanks(k) + s =~= blanks(k - 1) + (seq![' '] + s));
        lemma_blank_before(s);
    }
}

proof fn lemma_blanks_front(k: int, s: Seq<char>)
    ensures
        (blanks(k) + (seq![' '] + s))[0] == ' ',
    decreases k,
{
    if k <= 0 {
        assert(blanks(k) + (seq![' '] + s) =~= seq![' '] + s);
    } else {
        lemma_blanks_front(k - 1, s);
        assert(blanks(k) + (seq![' '] + s) =~= blanks(k - 1) + (seq![' '] + (seq![' '] + s)));
        lemma_blanks_front(k - 1, seq![' '] + s);
    }
}

proof fn lemma_padded_word(w: Seq<char>, k: int, rest: Seq<char>)
    requires
        is_word(w),
    ensures
        words(padded(w, k) + (seq![' '] + rest), 0) == seq![w] + words(rest, 0),
{
    let b = blanks(k - w.len());
    let r = b + (seq![' '] + rest);
    assert(padded(w, k) + (seq![' '] + rest) =~= w + r);
    lemma_blanks_front(k - w.len(), rest);
    assert(is_space(' '));
    lemma_words(w, r);
    lemma_blanks_before(k - w.len(), seq![' '] + rest);
    lemma_blank_before(rest);
}

proof fn lemma_digits_word(n: nat)
    ensures
        is_word(numeral(n)),
{
    lemma_numeral_digits(n);
    assert forall|i: int| 0 <= i < numeral(n).len() implies !is_space(#[trigger] numeral(n)[i]) by {
        assert(is_digit(numeral(n)[i]));
    }
}

proof fn lemma_joined_word(a: Seq<char>, b: Seq<char>)
    requires
        is_word(a),
        is_word(b),
    ensures
        is_word(a + b),
{
    let s = a + b;
    assert forall|i: int| 0 <= i < s.len() implies !is_space(#[trigger] s[i]) by {
        if i < a.len() {
            assert(s[i] == a[i]);
        } else {
            assert(s[i] == b[i - a.len()]);
        }
    }
}

proof fn lemma_fixed_word(x: Double)
    ensures
        is_word(fixed(x, 0)),
{
    reveal_strlit("NaN");
    reveal_strlit("inf");
    let minus = seq!['-'];
    assert(is_word(minus));
    assert(is_word("NaN"@));
    assert(is_word("inf"@));
    let k = crate::double::half_even(x.size() * crate::decimal::ten(0), one());
    lemma_digits_word(k);
    let t = if x.infinite() {
        "inf"@
    } else {
        numeral(k)
    };
    if !x.nan() {
        lemma_joined_word(minus, t);
        if x.negative() {
            assert(fixed(x, 0) =~= minus + t);
        } else {
            assert(fixed(x, 0) =~= t);
        }
    }
}

// ---------------------------------------------------------------- the report on the servers

/// The words of the line on a server that is up: its name and its address, how many cards it
/// has, how many of them are busy, and what they draw.
#[verifier::rlimit(60)]
pub proof fn lemma_line_up(s: Server, d: Sample)
    requires
        d.status is Up,
        is_word(s.name@),
        is_word(s.host@),
    ensures
        ({
            let n = d.gpus@.len();
            let w = words(server_line(s, d), 0);
            &&& w.len() == 9
            &&& w[0] == "OK"@
            &&& w[1] == s.name@
            &&& w[2] == s.host@
            &&& w[3] == numeral(n)
            &&& w[4] == "GPU"@
            &&& w[5] == numeral(busy_count(d.gpus@, n as int)) + seq!['/'] + numeral(n)
            &&& w[6] == "busy"@
            &&& w[7] == fixed(total_of(d.gpus@, Reading::Power, n as int), 0)
            &&& w[8] == "W"@
        }),
{
    let n = d.gpus@.len();
    let b = busy_count(d.gpus@, n as int);
    let x = total_of(d.gpus@, Reading::Power, n as int);
    let frac = numeral(b) + seq!['/'] + numeral(n);
    let watts = fixed(x, 0);
    lemma_fixed_words();
    lemma_line_glued(s.name@, s.host@, numeral(n), numeral(b), watts);
    lemma_digits_word(n);
    lemma_digits_word(b);
    lemma_joined_word(numeral(b), seq!['/']);
    lemma_joined_word(numeral(b) + seq!['/'], numeral(n));
    lemma_fixed_word(x);
    lemma_line_words("OK"@, s.name@, s.host@, numeral(n), "GPU"@, frac, "busy"@, watts, "W"@);
}

proof fn lemma_fixed_words()
    ensures
        is_word("OK"@),
        is_word("GPU"@),
        is_word("busy"@),
        is_word("W"@),
        is_word(seq!['/']),
{
    reveal_strlit("OK");
    reveal_strlit("GPU");
    reveal_strlit("busy");
    reveal_strlit("W");
}

#[verifier::opaque]
spec fn spread(
    a: Seq<char>,
    name: Seq<char>,
    host: Seq<char>,
    n: Seq<char>,
    g: Seq<char>,
    frac: Seq<char>,
    b: Seq<char>,
    watts: Seq<char>,
    w: Seq<char>,
) -> Seq<char> {
    let sp = seq![' '];
    let r7 = sp + (w + seq!['\n']);
    let r6 = sp + (sp + (watts + r7));
    let r5 = sp + (b + r6);
    let r4 = sp + (sp + (frac + r5));
    let r3 = sp + (g + r4);
    let r2 = sp + (n + r3);
    let r1 = sp + (padded(host, 18) + r2);
    let r0 = sp + (sp + (sp + (padded(name, 5) + r1)));
    sp + (sp + (a + r0))
}

#[verifier::rlimit(40)]
proof fn lemma_line_words(
    a: Seq<char>,
    name: Seq<char>,
    host: Seq<char>,
    n: Seq<char>,
    g: Seq<char>,
    frac: Seq<char>,
    b: Seq<char>,
    watts: Seq<char>,
    w: Seq<char>,
)
    requires
        is_word(a),
        is_word(name),
        is_word(host),
        is_word(n),
        is_word(g),
        is_word(frac),
        is_word(b),
        is_word(watts),
        is_word(w),
    ensures
        ({
            words(spread(a, name, host, n, g, frac, b, watts, w), 0) == seq![
                a,
                name,
                host,
                n,
                g,
                frac,
                b,
                watts,
                w,
            ]
        }),
{
    reveal(spread);
    let sp = seq![' '];
    let nl = seq!['\n'];
    assert(is_space(' ') && is_space('\n'));
    let r7 = sp + (w + nl);
    let r6 = sp + (sp + (watts + r7));
    let r5 = sp + (b + r6);
    let r4 = sp + (sp + (frac + r5));
    let r3 = sp + (g + r4);
    let r2 = sp + (n + r3);
    let r1 = sp + (padded(host, 18) + r2);
    let r0 = sp + (sp + (sp + (padded(name, 5) + r1)));
    assert(words(nl, 0) == Seq::<Seq<char>>::empty()) by {
        assert(nl[0] == '\n');
        reveal_with_fuel(space_end, 2);
        assert(space_end(nl, 0) == 1);
    }
    assert(words(r7, 0) =~= seq![w]) by {
        lemma_words(w, nl);
    }
    assert(words(r6, 0) =~= seq![watts, w]) by {
        lemma_words(watts, r7);
        lemma_blank_before(sp + (watts + r7));
    }
    assert(words(r5, 0) =~= seq![b, watts, w]) by {
        lemma_words(b, r6);
    }
    assert(words(r4, 0) =~= seq![frac, b, watts, w]) by {
        lemma_words(frac, r5);
        lemma_blank_before(sp + (frac + r5));
    }
    assert(words(r3, 0) =~= seq![g, frac, b, watts, w]) by {
        lemma_words(g, r4);
    }
    assert(words(n + r3, 0) =~= seq![n, g, frac, b, watts, w]) by {
        lemma_words(n, r3);
    }
    assert(words(padded(host, 18) + r2, 0) =~= seq![host, n, g, frac, b, watts, w]) by {
        lemma_padded_word(host, 18, n + r3);
    }
    assert(words(padded(name, 5) + r1, 0) =~= seq![name, host, n, g, frac, b, watts, w]) by {
        lemma_padded_word(name, 5, padded(host, 18) + r2);
    }
    assert(words(r0, 0) =~= seq![name, host, n, g, frac, b, watts, w]) by {
        lemma_blank_before(padded(name, 5) + r1);
        lemma_blank_before(sp + (padded(name, 5) + r1));
        lemma_blank_before(sp + (sp + (padded(name, 5) + r1)));
    }
    lemma_words(a, r0);
    lemma_blank_before(sp + (a + r0));
    assert(seq![a] + words(r0, 0) =~= seq![a, name, host, n, g, frac, b, watts, w]);
}

proof fn lemma_line_parts()
    ensures
        "  OK   "@ == seq![' '] + seq![' '] + "OK"@ + seq![' '] + seq![' '] + seq![' '],
        " "@ == seq![' '],
        " GPU  "@ == seq![' '] + "GPU"@ + seq![' '] + seq![' '],
        "/"@ == seq!['/'],
        " busy  "@ == seq![' '] + "busy"@ + seq![' '] + seq![' '],
        " W\n"@ == seq![' '] + "W"@ + seq!['\n'],
{
    reveal_strlit("  OK   ");
    reveal_strlit(" ");
    reveal_strlit(" GPU  ");
    reveal_strlit("/");
    reveal_strlit(" busy  ");
    reveal_strlit(" W\n");
    reveal_strlit("OK");
    reveal_strlit("GPU");
    reveal_strlit("busy");
    reveal_strlit("W");
    let sp = seq![' '];
    assert("  OK   "@ =~= sp + sp + "OK"@ + sp + sp + sp);
    assert(" "@ =~= sp);
    assert(" GPU  "@ =~= sp + "GPU"@ + sp + sp);
    assert("/"@ =~= seq!['/']);
    assert(" busy  "@ =~= sp + "busy"@ + sp + sp);
    assert(" W\n"@ =~= sp + "W"@ + seq!['\n']);
}

#[verifier::rlimit(60)]
proof fn lemma_glued(
    a: Seq<char>,
    p: Seq<char>,
    q: Seq<char>,
    n: Seq<char>,
    g: Seq<char>,
    b: Seq<char>,
    y: Seq<char>,
    watts: Seq<char>,
    w: Seq<char>,
    sp: Seq<char>,
    sl: Seq<char>,
    nl: Seq<char>,
)
    ensures
        ({
            let r6 = sp + (sp + (watts + (sp + (w + nl))));
            let r4 = sp + (sp + (b + sl + n + (sp + (y + r6))));
            let r2 = sp + (n + (sp + (g + r4)));
            let r0 = sp + (sp + (sp + (p + (sp + (q + r2)))));
            (sp + sp + a + sp + sp + sp) + p + sp + q + sp + n + (sp + g + sp + sp) + b + sl + n + (
            sp + y + sp + sp) + watts + (sp + w + nl) == sp + (sp + (a + r0))
        }),
{
    let r7 = sp + (w + nl);
    let r6 = sp + (sp + (watts + r7));
    let r5 = sp + (y + r6);
    let frac = b + sl + n;
    let r4 = sp + (sp + (frac + r5));
    let r3 = sp + (g + r4);
    let r2 = sp + (n + r3);
    let r1 = sp + (q + r2);
    let r0 = sp + (sp + (sp + (p + r1)));
    let t1 = (sp + sp + a + sp + sp + sp) + p;
    assert(sp + (sp + (a + r0)) == t1 + r1) by {
        lemma_grouped(sp, sp, a + r0);
        lemma_grouped(sp + sp, a, r0);
        lemma_grouped(sp + sp + a, sp, sp + (sp + (p + r1)));
        lemma_grouped(sp + sp + a + sp, sp, sp + (p + r1));
        lemma_grouped(sp + sp + a + sp + sp, sp, p + r1);
        lemma_grouped(sp + sp + a + sp + sp + sp, p, r1);
    }
    let t3 = t1 + sp + q + sp + n;
    assert(t1 + r1 == t3 + r3) by {
        lemma_grouped(t1, sp, q + r2);
        lemma_grouped(t1 + sp, q, r2);
        lemma_grouped(t1 + sp + q, sp, n + r3);
        lemma_grouped(t1 + sp + q + sp, n, r3);
    }
    let t4 = t3 + (sp + g + sp + sp) + b + sl + n;
    assert(t3 + r3 == t4 + r5) by {
        let u = sp + g + sp + sp;
        lemma_grouped(sp, g, r4);
        lemma_grouped(sp + g, sp, sp + (frac + r5));
        lemma_grouped(sp + g + sp, sp, frac + r5);
        assert(r3 == u + (frac + r5));
        lemma_grouped(t3, u, frac + r5);
        lemma_grouped(t3 + u, frac, r5);
        lemma_grouped(t3 + u, b + sl, n);
        lemma_grouped(t3 + u, b, sl);
    }
    assert(t4 + r5 == t4 + (sp + y + sp + sp) + watts + (sp + w + nl)) by {
        let u = sp + y + sp + sp;
        lemma_grouped(sp, y, r6);
        lemma_grouped(sp + y, sp, sp + (watts + r7));
        lemma_grouped(sp + y + sp, sp, watts + r7);
        assert(r5 == u + (watts + r7));
        lemma_grouped(t4, u, watts + r7);
        lemma_grouped(t4 + u, watts, r7);
        lemma_grouped(sp, w, nl);
    }
}

proof fn lemma_grouped(a: Seq<char>, b: Seq<char>, c: Seq<char>)
    ensures
        a + (b + c) == a + b + c,
{
    assert(a + (b + c) =~= a + b + c);
}

#[verifier::rlimit(60)]
proof fn lemma_line_glued(
    name: Seq<char>,
    host: Seq<char>,
    n: Seq<char>,
    b: Seq<char>,
    watts: Seq<char>,
)
    ensures
        ({
            let frac = b + seq!['/'] + n;
            "  OK   "@ + padded(name, 5) + " "@ + padded(host, 18) + " "@ + n + " GPU  "@ + b + "/"@
                + n + " busy  "@ + watts + " W\n"@ == spread(
                "OK"@,
                name,
                host,
                n,
                "GPU"@,
                frac,
                "busy"@,
                watts,
                "W"@,
            )
        }),
{
    reveal(spread);
    lemma_line_parts();
    lemma_glued(
        "OK"@,
        padded(name, 5),
        padded(host, 18),
        n,
        "GPU"@,
        b,
        "busy"@,
        watts,
        "W"@,
        seq![' '],
        seq!['/'],
        seq!['\n'],
    );
}

/// The words of the line on a server that is not up: its name, its address and what is said of
/// it.
#[verifier::rlimit(60)]
pub proof fn lemma_line_down(s: Server, d: Sample)
    requires
        !(d.status is Up),
        is_word(s.name@),
        is_word(s.host@),
    ensures
        words(server_line(s, d), 0) == seq!["FAIL"@, s.name@, s.host@] + words(
            d.error@ + seq!['\n'],
            0,
        ),
{
    let sp = seq![' '];
    let e = d.error@ + seq!['\n'];
    reveal_strlit("  FAIL ");
    reveal_strlit(" ");
    reveal_strlit("\n");
    reveal_strlit("FAIL");
    assert(is_word("FAIL"@));
    assert(is_space(' '));
    let r2 = padded(s.host@, 18) + (sp + e);
    let r1 = padded(s.name@, 5) + (sp + r2);
    let r0 = sp + r1;
    assert("  FAIL "@ =~= sp + sp + "FAIL"@ + sp);
    assert(" "@ =~= sp);
    assert("\n"@ =~= seq!['\n']);
    assert(server_line(s, d) =~= sp + (sp + ("FAIL"@ + r0)));
    lemma_padded_word(s.host@, 18, e);
    lemma_padded_word(s.name@, 5, r2);
    lemma_blank_before(r1);
    lemma_words("FAIL"@, r0);
    lemma_blank_before(sp + ("FAIL"@ + r0));
    let w = words(server_line(s, d), 0);
    assert(w =~= seq!["FAIL"@, s.name@, s.host@] + words(e, 0));
}

/// The report ends with how many servers are up of how many there are, and how many cards they
/// have.
pub proof fn lemma_check_totals(order: Seq<&Server>, samples: Seq<(Seq<char>, Sample)>)
    ensures
        check_text(order, samples) == server_lines(order, samples, order.len() as int) + "\n"@
            + numeral(places_up(order, samples).len()) + "/"@ + numeral(order.len()) + " up, "@
            + numeral(places(Which::All, order, samples).len()) + " GPUs visible"@,
{
    lemma_counts_cards(order, samples);
    lemma_counts_servers(order, samples);
}

/// The line on a snapshot tells how many servers of the table are up, how many cards of these
/// do no work, and how many there are.
pub proof fn lemma_published(stamp: Seq<char>, m: Seq<(Seq<char>, Sample)>, n: nat, public: bool)
    ensures
        published_text(stamp, m, n, public) == stamp + " published "@ + numeral(
            m.filter(up_entry()).len(),
        ) + "/"@ + numeral(n) + " up, "@ + numeral(held_places(Which::Idle, m).len()) + "/"@
            + numeral(held_places(Which::All, m).len()) + " GPUs free"@ + if public {
            ", redacted"@
        } else {
            ""@
        },
{
    lemma_table_ups(m, m.len() as int);
    assert(m.take(m.len() as int) =~= m);
    lemma_table_cards(m);
}

// ---------------------------------------------------------------- uploads and intervals

/// Every upload has the command of the option that is named for it. The first round has one
/// command for everything; a later one takes it for the snapshot only where there is no other.
#[verifier::rlimit(60)]
pub proof fn lemma_upload_options(argv: Seq<Seq<char>>, s: Settings, t: Settings, v: Seq<char>)
    requires
        read_args(argv, 0, s) == Outcome::Run(t),
    ensures
        ({
            let r = read_args(argv + seq!["--upload-cmd"@, v], 0, s);
            &&& r is Run
            &&& command_for(r->Run_0, true, Upload::Snapshot) == Some(v)
            &&& t.upload_cmd_tick is None ==> command_for(r->Run_0, false, Upload::Snapshot) == Some(v)
            &&& t.upload_cmd_tick is Some ==> command_for(r->Run_0, false, Upload::Snapshot)
                == command_for(t, false, Upload::Snapshot)
            &&& command_for(r->Run_0, false, Upload::Stats) == command_for(t, false, Upload::Stats)
            &&& command_for(r->Run_0, false, Upload::Summary) == command_for(t, false, Upload::Summary)
        }),
        ({
            let r = read_args(argv + seq!["--upload-cmd-tick"@, v], 0, s);
            &&& r is Run
            &&& command_for(r->Run_0, false, Upload::Snapshot) == Some(v)
            &&& command_for(r->Run_0, true, Upload::Snapshot) == command_for(t, true, Upload::Snapshot)
        }),
        ({
            let r = read_args(argv + seq!["--upload-cmd-stats"@, v], 0, s);
            &&& r is Run
            &&& command_for(r->Run_0, false, Upload::Stats) == Some(v)
            &&& command_for(r->Run_0, true, Upload::Stats) is None
        }),
        ({
            let r = read_args(argv + seq!["--upload-cmd-summary"@, v], 0, s);
            &&& r is Run
            &&& command_for(r->Run_0, false, Upload::Summary) == Some(v)
            &&& command_for(r->Run_0, true, Upload::Summary) is None
        }),
{
    lemma_text_options(argv, s, t, v);
}

/// On whole seconds, an interval has passed just where it is no longer than the time between.
#[verifier::rlimit(40)]
pub proof fn lemma_passed(a: nat, b: nat, secs: u64)
    requires
        a < 0x20_0000_0000_0000,
        b < 0x20_0000_0000_0000,
        secs < 0x20_0000_0000_0000,
    ensures
        has_passed(whole(a as int), whole(b as int), secs) <==> b - a >= secs,
{
    lemma_whole_exact(a);
    lemma_whole_exact(b);
    lemma_whole_exact(secs as nat);
    vstd::arithmetic::power2::lemma_pow2_pos(1074);
    let u = one() as int;
    let x = whole(b as int);
    let y = whole(a as int);
    let d = difference(x, y);
    let w = whole(secs as int);
    assert(y.magnitude() <= 0x7fff_ffff_ffff_ffff);
    assert(negated(y).units() == -y.units());
    assert(negated(y).finite());
    let v = x.units() + negated(y).units();
    assert(v == (b - a) * u) by (nonlinear_arith)
        requires
            v == b * u - a * u,
    ;
    if b > a {
        let k = (b - a) as nat;
        lemma_whole_exact(k);
        assert(k * u == v);
        assert(v > 0) by (nonlinear_arith)
            requires
                v == k * u,
                k > 0,
                u > 0,
        ;
        assert(d == whole(k as int));
        lemma_order(w, d);
        assert(w.units() <= d.units() <==> secs <= k) by (nonlinear_arith)
            requires
                w.units() == secs * u,
                d.units() == k * u,
                u > 0,
        ;
    } else if b == a {
        assert(v == 0) by (nonlinear_arith)
            requires
                v == (b - a) * u,
                b == a,
        ;
        assert(d.magnitude() == 0);
        lemma_order(w, d);
        assert(w.units() <= d.units() <==> secs == 0) by (nonlinear_arith)
            requires
                w.units() == secs * u,
                d.units() == 0,
                u > 0,
                secs >= 0,
        ;
    } else {
        let k = (a - b) as nat;
        lemma_whole_exact(k);
        assert(v < 0 && -v == k * u) by (nonlinear_arith)
            requires
                v == (b - a) * u,
                k == a - b,
                k > 0,
                u > 0,
        ;
        let m = whole(k as int);
        assert(d == with_sign(true, m.magnitude()));
        assert(d.units() == -(k * u));
        assert(d.units() < 0);
        lemma_order(w, d);
        assert(w.units() >= 0) by (nonlinear_arith)
            requires
                w.units() == secs * u,
                u > 0,
                secs >= 0,
        ;
    }
}

// ---------------------------------------------------------------- ranges and strides

/// The page offers six hours in slots of two minutes, a day in slots of ten, a week in slots of
/// an hour, and everything: that one reaches back to the oldest row and an hour at least.
pub proof fn lemma_ranges(earliest: Option<u32>, now: u32)
    ensures
        ({
            let r = ranges_from(earliest, now);
            &&& r.len() == 4
            &&& r[0].0 == "6h"@ && r[1].0 == "24h"@ && r[2].0 == "7d"@ && r[3].0 == "all"@
            &&& r[3].2 == 200
            &&& r[0].1 == 6 * 3600 && step_of(r[0].1, r[0].2) == 120
            &&& r[1].1 == 24 * 3600 && step_of(r[1].1, r[1].2) == 600
            &&& r[2].1 == 7 * 24 * 3600 && step_of(r[2].1, r[2].2) == 3600
            &&& r[3].1 >= 3600
            &&& earliest is Some && earliest->0 <= now ==> start_of(r[3].1, r[3].2, now)
                <= earliest->0
            &&& earliest is None || now < earliest->0 + 3600 ==> r[3].1 == 3600
            &&& earliest is Some && earliest->0 + 3600 <= now ==> now - r[3].1 == earliest->0
        }),
{
    let r = ranges_from(earliest, now);
    if earliest is Some && earliest->0 <= now {
        let span = r[3].1;
        let step = step_of(span, r[3].2);
        let back = if now > span {
            (now - span) as u32
        } else {
            0
        };
        assert(back <= earliest->0);
        assert(back / step * step <= back) by (nonlinear_arith)
            requires
                step >= 1,
                back >= 0,
        ;
    }
}

/// At the stride that is picked, about as many rows are read as are wanted: that many at least,
/// where there are that many, and fewer than twice as many.
pub proof fn lemma_stride(total: nat, want: nat)
    requires
        want > 0,
    ensures
        stride_for(total, want) >= 1,
        total <= want ==> stride_for(total, want) == 1,
        total >= want ==> stride_for(total, want) * want <= total,
        total >= want ==> total < stride_for(total, want) * want + want,
{
    if total > want {
        vstd::arithmetic::div_mod::lemma_fundamental_div_mod(total as int, want as int);
        vstd::arithmetic::mul::lemma_mul_is_commutative(want as int, (total / want) as int);
        let s = (total / want) as int;
        let t = total as int;
        let w = want as int;
        assert(s >= 1) by (nonlinear_arith)
            requires
                s * w + w > t,
                t > w,
                w > 0,
        ;
    }
}

/// Read at a stride, records in the range come out each so many places after the one before.
pub proof fn lemma_taken(
    f: Seq<u8>,
    i: int,
    stride: int,
    end: int,
    from: u32,
    to: u32,
    j: int,
)
    requires
        0 <= i,
        0 < stride,
        forall|k: int|
            i <= k < end ==> (#[trigger] row_of(f, k)) is Some && from <= row_of(f, k)->0.ts <= to,
        0 <= j,
        i + j * stride < end,
    ensures
        j < taken(f, i, stride, end, from, to).len(),
        taken(f, i, stride, end, from, to)[j] == row_of(f, i + j * stride)->0,
    decreases j,
{
    let r = taken(f, i, stride, end, from, to);
    assert(i <= i + j * stride) by (nonlinear_arith)
        requires
            0 <= j,
            0 < stride,
    ;
    assert(row_of(f, i) is Some);
    let rest = taken(f, i + stride, stride, end, from, to);
    assert(r == seq![row_of(f, i)->0] + rest);
    if j > 0 {
        assert(i + stride + (j - 1) * stride == i + j * stride) by (nonlinear_arith);
        lemma_taken(f, i + stride, stride, end, from, to, j - 1);
    } else {
        assert(i + 0 * stride == i) by (nonlinear_arith);
    }
}

/// No record is read twice, and none that is not in the range.
#[verifier::rlimit(40)]
pub proof fn lemma_taken_bounds(
    f: Seq<u8>,
    i: int,
    stride: int,
    end: int,
    from: u32,
    to: u32,
)
    requires
        0 < stride,
    ensures
        ({
            let r = taken(f, i, stride, end, from, to);
            &&& i <= end ==> r.len() * stride <= end - i + stride - 1
            &&& forall|j: int| 0 <= j < r.len() ==> from <= (#[trigger] r[j]).ts <= to
        }),
    decreases
            if i < end {
                end - i
            } else {
                0
            },
{
    let r = taken(f, i, stride, end, from, to);
    if i < end && row_of(f, i) is Some && row_of(f, i)->0.ts <= to {
        let rest = taken(f, i + stride, stride, end, from, to);
        lemma_taken_bounds(f, i + stride, stride, end, from, to);
        let n = rest.len() as int;
        if i + stride > end {
            assert(n == 0);
        }
        assert(r.len() == n || r.len() == n + 1);
        assert((n + 1) * stride == n * stride + stride) by (nonlinear_arith);
        assert(n * stride >= 0) by (nonlinear_arith)
            requires
                n >= 0,
                stride > 0,
        ;
        if n == 0 {
            assert(n * stride == 0);
        }
        let h = r.len() - n;
        assert forall|j: int| 0 <= j < r.len() implies from <= (#[trigger] r[j]).ts <= to by {
            if j >= h {
                assert(r[j] == rest[j - h]);
            }
        }
    } else {
        assert(r.len() * stride == 0) by (nonlinear_arith)
            requires
                r.len() == 0,
        ;
    }
}

} // verus!
