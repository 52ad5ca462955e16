//! What the numbers and the first and last lines of a briefing say.

use vstd::prelude::*;
use vstd::arithmetic::power2::{lemma_pow2_adds, lemma_pow2_pos, pow2};
use crate::briefed::{counts, listed_cards, tells, that_count};
use crate::double::{
    at_most, difference, lemma_magnitude_of, lemma_magnitude_order, lemma_rounded_exact,
    lemma_rounded_order, lemma_whole_exact, less, magnitude_units, nearest, one, product, quotient,
    rounded, truncated, whole, with_sign, Double,
};
use crate::json::Json;
use crate::rows::{lemma_near, near};
use crate::summarizer::trend_at;
use crate::summary::{
    all_alerts, briefing, digest_after, facts_of, fans_of, fans_text, reboot_of, reboot_text,
    rounded_text, thirst_text, trend_text, vram_of, vram_text, Digest,
};
use crate::text::{int_text, joined, numeral};

verus! {

broadcast use vstd::string::group_string_axioms;

// ---------------------------------------------------------------- rounded numbers

/// A number in a briefing is told as the nearest integer: no more than a half away from it, with
/// its sign.
#[verifier::rlimit(40)]
pub proof fn lemma_rounded_text(x: Double) -> (k: int)
    requires
        x.finite(),
        x.size() < 0x10_0000_0000_0000 * one(),
    ensures
        rounded_text(x) == int_text(k),
        2 * x.units() - one() <= 2 * (k * one()) <= 2 * x.units() + one(),
{
    let u = one() as int;
    lemma_pow2_pos(1074);
    lemma_near(x);
    let n = near(x);
    let s = x.size() as int;
    assert(0 <= n <= 0x10_0000_0000_0000) by (nonlinear_arith)
        requires
            2 * (n * u) - u <= 2 * s < 2 * (n * u) + u,
            0 <= s < 0x10_0000_0000_0000 * u,
            u > 0,
    ;
    lemma_whole_exact(n as nat);
    let w = whole(n);
    let y = nearest(x);
    assert(y == with_sign(x.negative(), w.magnitude()));
    assert(y.magnitude() == w.magnitude());
    assert(y.size() == n * u);
    assert((n * u) / u == n) by {
        vstd::arithmetic::div_mod::lemma_div_multiples_vanish(n, u);
        vstd::arithmetic::mul::lemma_mul_is_commutative(n, u);
    }
    if x.negative() {
        assert((-n) * u == -(n * u)) by (nonlinear_arith);
        assert(truncated(y) == -n);
        -n
    } else {
        assert(truncated(y) == n);
        n
    }
}

// ---------------------------------------------------------------- the verdict

/// A briefing begins by saying that nothing is wrong where there is no anomaly and every server
/// responds; otherwise by saying how many anomalies there are, servers that do not respond among
/// them.
#[verifier::rlimit(60)]
pub proof fn lemma_verdict(d: Digest, trend: Option<(Double, u32)>)
    ensures
        ({
            let n = d.alerts.len() + d.down.len();
            let t = briefing(d, trend);
            &&& n == 0 ==> "판정: 이상 없음\n"@.is_prefix_of(t)
            &&& n > 0 ==> ("판정: 이상 징후 "@ + numeral(n) + "건\n"@).is_prefix_of(t)
        }),
{
    let alerts = all_alerts(d);
    let n = alerts.len();
    assert(n == d.alerts.len() + d.down.len());
    let v = crate::summary::verdict(n);
    let h = "판정: 이상 징후 "@ + numeral(n) + "건\n"@;
    if n > 0 {
        reveal_strlit("건\n이상 징후:\n");
        reveal_strlit("건\n");
        reveal_strlit("이상 징후:\n");
        assert("건\n이상 징후:\n"@ =~= "건\n"@ + "이상 징후:\n"@);
        assert(v =~= h + "이상 징후:\n"@);
        lemma_starts(h, "이상 징후:\n"@);
    } else {
        assert(v =~= v.subrange(0, v.len() as int));
    }
    let p = if n > 0 {
        h
    } else {
        v
    };
    assert(p.is_prefix_of(v));
    lemma_in_front(
        p,
        v,
        crate::summary::alert_lines(alerts, n as int),
        "관측:\n"@,
        thirst_text(d.thirstiest),
        crate::summary::heat_text(d.hottest),
        crate::summary::room_text(d.rooms),
        vram_text(d.vram),
        fans_text(d.fans),
        reboot_text(d.rebooted),
        trend_text(trend, d.watts),
        crate::summary::totals_text(d),
        "\n서버별:\n"@,
        joined(d.lines, "\n"@),
    );
}

proof fn lemma_starts(a: Seq<char>, b: Seq<char>)
    ensures
        a.is_prefix_of(a + b),
{
    assert(a =~= (a + b).subrange(0, a.len() as int));
}

proof fn lemma_grows(p: Seq<char>, a: Seq<char>, b: Seq<char>)
    requires
        p.is_prefix_of(a),
    ensures
        p.is_prefix_of(a + b),
{
    assert(p =~= (a + b).subrange(0, p.len() as int)) by {
        assert(p =~= a.subrange(0, p.len() as int));
        assert forall|i: int| 0 <= i < p.len() implies p[i] == #[trigger] (a + b)[i] by {
            assert(p[i] == a.subrange(0, p.len() as int)[i]);
        }
    }
}

#[verifier::rlimit(60)]
proof fn lemma_in_front(
    p: Seq<char>,
    p0: Seq<char>,
    p1: Seq<char>,
    p2: Seq<char>,
    p3: Seq<char>,
    p4: Seq<char>,
    p5: Seq<char>,
    p6: Seq<char>,
    p7: Seq<char>,
    p8: Seq<char>,
    p9: Seq<char>,
    p10: Seq<char>,
    p11: Seq<char>,
    p12: Seq<char>,
)
    requires
        p.is_prefix_of(p0),
    ensures
        p.is_prefix_of(p0 + p1 + p2 + p3 + p4 + p5 + p6 + p7 + p8 + p9 + p10 + p11 + p12),
{
    lemma_grows(p, p0, p1);
    lemma_grows(p, p0 + p1, p2);
    lemma_grows(p, p0 + p1 + p2, p3);
    lemma_grows(p, p0 + p1 + p2 + p3, p4);
    lemma_grows(p, p0 + p1 + p2 + p3 + p4, p5);
    lemma_grows(p, p0 + p1 + p2 + p3 + p4 + p5, p6);
    lemma_grows(p, p0 + p1 + p2 + p3 + p4 + p5 + p6, p7);
    lemma_grows(p, p0 + p1 + p2 + p3 + p4 + p5 + p6 + p7, p8);
    lemma_grows(p, p0 + p1 + p2 + p3 + p4 + p5 + p6 + p7 + p8, p9);
    lemma_grows(p, p0 + p1 + p2 + p3 + p4 + p5 + p6 + p7 + p8 + p9, p10);
    lemma_grows(p, p0 + p1 + p2 + p3 + p4 + p5 + p6 + p7 + p8 + p9 + p10, p11);
    lemma_grows(p, p0 + p1 + p2 + p3 + p4 + p5 + p6 + p7 + p8 + p9 + p10 + p11, p12);
}

// ---------------------------------------------------------------- shares and changes

/// The server that draws most is told with its limit and the share of it, in hundredths, where
/// the limit is known.
#[verifier::rlimit(60)]
pub proof fn lemma_share(n: Seq<char>, w: Double, cap: Double)
    requires
        less(whole(0), cap),
    ensures
        tells(
            thirst_text(Some((n, w, cap))),
            " (제한 "@ + rounded_text(cap) + " W의 "@ + rounded_text(
                product(quotient(w, cap), whole(100)),
            ) + "%)\n"@,
        ),
{
    reveal_strlit("%)");
    reveal_strlit("\n");
    reveal_strlit("%)\n");
    assert("%)\n"@ =~= "%)"@ + "\n"@);
    let a = "- 서버 중에서는 "@ + n + "이 "@ + rounded_text(w) + " W로 전력을 가장 많이 쓰는 중"@;
    let s = " (제한 "@ + rounded_text(cap) + " W의 "@ + rounded_text(
        product(quotient(w, cap), whole(100)),
    );
    let line = s + "%)\n"@;
    let e = Seq::<char>::empty();
    assert(thirst_text(Some((n, w, cap))) =~= a + line + e);
}

/// The change is told with its sign: a plus where the power is not less than it was, and the
/// difference, which brings its minus along, where it is.
#[verifier::rlimit(60)]
pub proof fn lemma_change(prev: Double, mins: u32, watts: Double)
    ensures
        at_most(whole(0), difference(watts, prev)) ==> tells(
            trend_text(Some((prev, mins)), watts),
            " W로 +"@ + rounded_text(difference(watts, prev)) + " W 변함\n"@,
        ),
        !at_most(whole(0), difference(watts, prev)) ==> tells(
            trend_text(Some((prev, mins)), watts),
            " W로 "@ + rounded_text(difference(watts, prev)) + " W 변함\n"@,
        ),
        trend_text(None, watts).len() == 0,
{
    reveal_strlit(" W로 +");
    reveal_strlit(" W로 ");
    reveal_strlit("+");
    reveal_strlit("");
    assert(" W로 +"@ =~= " W로 "@ + "+"@);
    assert(""@ =~= Seq::<char>::empty());
    let a = "- 직전 브리핑("@ + numeral(mins as nat) + "분 전)과 비교하면 전력이 "@ + rounded_text(
        prev,
    ) + " W에서 "@ + rounded_text(watts);
    let by = rounded_text(difference(watts, prev));
    let e = Seq::<char>::empty();
    let t = trend_text(Some((prev, mins)), watts);
    if at_most(whole(0), difference(watts, prev)) {
        let line = " W로 +"@ + by + " W 변함\n"@;
        assert(t =~= a + line + e);
    } else {
        let line = " W로 "@ + by + " W 변함\n"@;
        assert(t =~= a + line + e);
    }
}

/// Lists of servers are told with what they are lists of, and there is no line where a list is
/// empty.
pub proof fn lemma_listings(v: Seq<Seq<char>>)
    ensures
        v.len() == 0 ==> vram_text(v).len() == 0 && fans_text(v).len() == 0 && reboot_text(v).len()
            == 0,
        v.len() > 0 ==> tells(vram_text(v), "OOM 위험: "@ + joined(v, ", "@) + "\n"@),
        v.len() > 0 ==> tells(fans_text(v), "95% 이상으로 냉각 여력이 없음: "@ + joined(v, ", "@) + "\n"@),
        v.len() > 0 ==> tells(reboot_text(v), "있음: "@ + joined(v, ", "@) + "\n"@),
{
    let e = Seq::<char>::empty();
    let l = joined(v, ", "@);
    reveal_strlit("% 이상 차서 추가 할당 시 OOM 위험: ");
    reveal_strlit("% 이상 차서 추가 할당 시 ");
    reveal_strlit("OOM 위험: ");
    reveal_strlit("% 이상으로 냉각 여력이 없음: ");
    reveal_strlit("95% 이상으로 냉각 여력이 없음: ");
    reveal_strlit("- 24시간 안에 재부팅되어 실행 중이던 작업이 끊겼을 수 있음: ");
    reveal_strlit("- 24시간 안에 재부팅되어 실행 중이던 작업이 끊겼을 수 ");
    reveal_strlit("있음: ");
    assert("% 이상 차서 추가 할당 시 OOM 위험: "@ =~= "% 이상 차서 추가 할당 시 "@ + "OOM 위험: "@);
    reveal_with_fuel(numeral, 3);
    assert(numeral(95) =~= seq!['9', '5']);
    assert(numeral(95) + "% 이상으로 냉각 여력이 없음: "@ =~= "95% 이상으로 냉각 여력이 없음: "@);
    assert("- 24시간 안에 재부팅되어 실행 중이던 작업이 끊겼을 수 있음: "@
        =~= "- 24시간 안에 재부팅되어 실행 중이던 작업이 끊겼을 수 "@ + "있음: "@);
    if v.len() > 0 {
        let h = "- VRAM이 "@ + rounded_text(
            product(crate::decimal::dec(crate::summary::VRAM_ALERT as nat, -2), whole(100)),
        ) + "% 이상 차서 추가 할당 시 "@;
        assert(vram_text(v) =~= h + ("OOM 위험: "@ + l + "\n"@) + e);
        assert(fans_text(v) =~= "- 팬이 "@ + ("95% 이상으로 냉각 여력이 없음: "@ + l + "\n"@) + e);
        assert(reboot_text(v) =~= "- 24시간 안에 재부팅되어 실행 중이던 작업이 끊겼을 수 "@ + (
        "있음: "@ + l + "\n"@) + e);
    }
}

// ---------------------------------------------------------------- notices

/// Adds the notice on the memory of a server, if it has one.
pub open spec fn add_memory() -> spec_fn(Seq<Seq<char>>, Json) -> Seq<Seq<char>> {
    |a: Seq<Seq<char>>, s: Json| a + vram_of(facts_of(s, listed_cards(s)))
}

/// Adds the notice on the fans of a server, if it has one.
pub open spec fn add_fans() -> spec_fn(Seq<Seq<char>>, Json) -> Seq<Seq<char>> {
    |a: Seq<Seq<char>>, s: Json| a + fans_of(facts_of(s, listed_cards(s)))
}

/// Adds the notice on the start of a server, if it has one.
pub open spec fn add_start() -> spec_fn(Seq<Seq<char>>, Json) -> Seq<Seq<char>> {
    |a: Seq<Seq<char>>, s: Json| a + reboot_of(facts_of(s, listed_cards(s)))
}

/// The notices are those of the servers that count, in their order, and no others.
pub proof fn lemma_notices_of_all(servers: Seq<Json>, k: int)
    requires
        0 <= k <= servers.len(),
    ensures
        ({
            let d = digest_after(servers, k);
            let there = servers.take(k).filter(that_count());
            let none = Seq::<Seq<char>>::empty();
            &&& d.vram == there.fold_left(none, add_memory())
            &&& d.fans == there.fold_left(none, add_fans())
            &&& d.rebooted == there.fold_left(none, add_start())
        }),
    decreases k,
{
    reveal(Seq::filter);
    if k > 0 {
        lemma_notices_of_all(servers, k - 1);
        crate::briefed::lemma_says(servers[k - 1]);
        assert(servers.take(k).drop_last() =~= servers.take(k - 1));
        let before = servers.take(k - 1).filter(that_count());
        let there = servers.take(k).filter(that_count());
        if counts(servers[k - 1]) {
            assert(there == before.push(servers[k - 1]));
            assert(there.drop_last() =~= before);
        } else {
            assert(there == before);
        }
    } else {
        assert(servers.take(0).filter(that_count()).len() == 0);
    }
}

// ---------------------------------------------------------------- how long ago

#[verifier::rlimit(40)]
proof fn lemma_minutes(secs: nat) -> (q: Double)
    requires
        secs < 0x1_0000_0000,
    ensures
        q == quotient(whole(secs as int), whole(60)),
        q.finite(),
        !q.negative(),
        ({
            let a = (secs / 60) as int;
            let u = pow2(1068) as int;
            &&& secs % 60 < 30 ==> 64 * a * u <= q.size() <= (64 * a + 31) * u
            &&& secs % 60 >= 30 ==> (64 * a + 32) * u <= q.size() <= (64 * a + 64) * u
        }),
{
    let u = one();
    let v = pow2(1068);
    lemma_pow2_pos(1074);
    lemma_pow2_pos(1068);
    lemma_pow2_adds(6, 1068);
    vstd::arithmetic::power2::lemma2_to64();
    assert(u == 64 * v);
    lemma_whole_exact(secs);
    lemma_whole_exact(60);
    let a = (secs / 60) as nat;
    let x = whole(secs as int);
    let y = whole(60);
    assert(y.magnitude() != 0) by {
        assert(magnitude_units(0) == 0);
    }
    let q = quotient(x, y);
    let c = x.size() * u;
    let d = y.size();
    let m = rounded(c, d);
    assert(q == with_sign(false, m));
    let (lo, hi): (nat, nat) = if secs % 60 < 30 {
        (64 * a, 64 * a + 31)
    } else {
        (64 * a + 32, 64 * a + 64)
    };
    let p = lemma_magnitude_of(lo, 1068);
    let r = lemma_magnitude_of(hi, 1068);
    lemma_rounded_exact(p);
    lemma_rounded_exact(r);
    assert(60 * lo <= 64 * secs <= 60 * hi);
    assert((lo * v) * d <= c * 1) by (nonlinear_arith)
        requires
            c == (secs * u) * u,
            d == 60 * u,
            u == 64 * v,
            60 * lo <= 64 * secs,
    ;
    assert(c * 1 <= (hi * v) * d) by (nonlinear_arith)
        requires
            c == (secs * u) * u,
            d == 60 * u,
            u == 64 * v,
            64 * secs <= 60 * hi,
    ;
    lemma_rounded_order(lo * v, 1, c, d);
    lemma_rounded_order(c, d, hi * v, 1);
    assert(p <= m <= r);
    if p < m {
        lemma_magnitude_order(p, m);
    }
    if m < r {
        lemma_magnitude_order(m, r);
    }
    assert(q.magnitude() == m);
    assert(64 * (a as int) * (v as int) == lo * v || secs % 60 >= 30);
    q
}

/// How long ago the last briefing was is told in minutes, rounded to the nearest, half a minute
/// upward; the power is the one it had.
#[verifier::rlimit(40)]
pub proof fn lemma_minutes_ago(w: Double, then_at: u32, now: u32)
    requires
        then_at <= now,
    ensures
        trend_at(Some((w, then_at)), now) == Some((w, ((now - then_at + 30) / 60) as u32)),
        trend_at(None, now) is None,
{
    let secs = (now - then_at) as nat;
    let q = lemma_minutes(secs);
    let a = (secs / 60) as int;
    let u = one() as int;
    let v = pow2(1068) as int;
    lemma_pow2_pos(1074);
    lemma_pow2_pos(1068);
    lemma_pow2_adds(6, 1068);
    vstd::arithmetic::power2::lemma2_to64();
    assert(u == 64 * v);
    lemma_near(q);
    let n = near(q);
    let s = q.size() as int;
    let k = if secs % 60 < 30 {
        a
    } else {
        a + 1
    };
    if secs % 60 < 30 {
        assert(n == a) by (nonlinear_arith)
            requires
                2 * (n * u) - u <= 2 * s < 2 * (n * u) + u,
                64 * a * v <= s <= (64 * a + 31) * v,
                u == 64 * v,
                v > 0,
        ;
    } else {
        assert(n == a + 1) by (nonlinear_arith)
            requires
                2 * (n * u) - u <= 2 * s < 2 * (n * u) + u,
                (64 * a + 32) * v <= s <= (64 * a + 64) * v,
                u == 64 * v,
                v > 0,
        ;
    }
    lemma_whole_exact(k as nat);
    let y = nearest(q);
    assert(y == with_sign(false, whole(k).magnitude()));
    assert(y.size() == k * u);
    assert((k * u) / u == k) by {
        vstd::arithmetic::div_mod::lemma_div_multiples_vanish(k, u);
        vstd::arithmetic::mul::lemma_mul_is_commutative(k, u);
    }
    assert(truncated(y) == k);
    assert(k == (secs + 30) / 60);
}

} // verus!
