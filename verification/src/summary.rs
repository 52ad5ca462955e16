//! A short written summary of the current state, by a language model.
//!
//! The facts that the model is given are worked out here, from the snapshot that is published:
//! a request reveals nothing that a visitor could not read. Thresholds and counts are decided
//! here too; the model only puts them into words.

use vstd::prelude::*;
use crate::decimal::{dec, literal};
use crate::double::{
    at_most, difference, larger, less, nearest, no_sum, product, quotient, saturated, smaller, sum,
    whole, Double,
};
use crate::json::{
    entry, json, listed, member, num_member, num_text, object_text, parse, parsed_json, quoted,
    text_member, Json, Value, Writer,
};
use crate::table::{lookup, put, Table};
use crate::text::{
    chars_of, eq_str, i64_numeral, int_text, join, joined, lines, numeral, own, part, string_of,
    u128_numeral, u64_numeral, views,
};

verus! {

broadcast use vstd::string::group_string_axioms;

// ---------------------------------------------------------------- thresholds

/// Memory this full, in hundredths, is one allocation away from running out.
pub const VRAM_ALERT: u64 = 92;

/// A fan this far open, in hundredths, has nothing left to give.
pub const FAN_ALERT: u64 = 95;

/// A card this hot, in degrees, is losing performance.
pub const TEMP_ALERT: u64 = 85;

/// A server this close to its power limit, in hundredths, is held back by it.
pub const POWER_ALERT: u64 = 95;

// ---------------------------------------------------------------- the facts of a server

/// A number rounded to the nearest integer, as text.
pub open spec fn rounded_text(x: Double) -> Seq<char> {
    int_text(saturated(nearest(x), i64::MIN as int, i64::MAX as int))
}

fn round_text(x: Double) -> (r: String)
    ensures
        r@ == rounded_text(x),
{
    i64_numeral(x.round().to_range(i64::MIN as i128, i64::MAX as i128) as i64)
}

/// The name of a server.
pub open spec fn name_of(s: Json) -> Seq<char> {
    text_member(s, "name"@, "?"@)
}

/// Whether a server responds.
pub open spec fn responds(s: Json) -> bool {
    text_member(s, "status"@, ""@) == "ok"@
}

/// The cards of a server, where it has a list of them.
pub open spec fn cards_of(s: Json) -> Option<Seq<Json>> {
    match member(s, "gpus"@) {
        Some(Json::Arr(a)) => Some(a),
        _ => None,
    }
}

/// The power that a server draws.
pub open spec fn draw_of(s: Json) -> Double {
    num_member(s, "watts"@, whole(0))
}

/// Whether a card is busy, by the rule that the page goes by.
pub open spec fn card_busy(g: Json) -> bool {
    at_most(whole(5), num_member(g, "util"@, whole(0))) || less(
        whole(512),
        num_member(g, "mem_used"@, whole(0)),
    )
}

/// The number of busy cards among the first `k`.
pub open spec fn busy_cards(gpus: Seq<Json>, k: int) -> nat
    decreases k,
{
    if k <= 0 {
        0
    } else {
        busy_cards(gpus, k - 1) + if card_busy(gpus[k - 1]) {
            1nat
        } else {
            0
        }
    }
}

/// The largest value of a member over the first `k` cards; zero at least.
pub open spec fn most(gpus: Seq<Json>, key: Seq<char>, k: int) -> Double
    decreases k,
{
    if k <= 0 {
        whole(0)
    } else {
        larger(most(gpus, key, k - 1), num_member(gpus[k - 1], key, whole(0)))
    }
}

/// The sum of a member over the first `k` cards.
pub open spec fn sum_over(gpus: Seq<Json>, key: Seq<char>, k: int) -> Double
    decreases k,
{
    if k <= 0 {
        no_sum()
    } else {
        sum(sum_over(gpus, key, k - 1), num_member(gpus[k - 1], key, whole(0)))
    }
}

/// The largest share of its memory that one of the first `k` cards has in use; cards that do
/// not say how much they have do not count.
pub open spec fn fullest(gpus: Seq<Json>, k: int) -> Double
    decreases k,
{
    if k <= 0 {
        whole(0)
    } else {
        let g = gpus[k - 1];
        let m = fullest(gpus, k - 1);
        if less(whole(0), num_member(g, "mem_total"@, whole(0))) {
            larger(
                m,
                quotient(
                    num_member(g, "mem_used"@, whole(0)),
                    num_member(g, "mem_total"@, whole(1)),
                ),
            )
        } else {
            m
        }
    }
}

/// What is worked out of a server that responds.
pub ghost struct Facts {
    pub name: Seq<char>,
    pub model: Seq<char>,
    pub loc: Seq<char>,
    pub room: Seq<char>,
    pub count: nat,
    pub busy: nat,
    pub watts: Double,
    pub temp: Double,
    pub cap: Double,
    pub vram: Double,
    pub fan: Double,
    pub uptime: Double,
}

/// What is worked out of a server that responds and has a list of cards.
pub open spec fn facts_of(s: Json, gpus: Seq<Json>) -> Facts {
    let n = gpus.len() as int;
    Facts {
        name: name_of(s),
        model: text_member(s, "gpu_model"@, ""@),
        loc: text_member(s, "loc"@, ""@),
        room: text_member(s, "loc"@, "?"@),
        count: gpus.len(),
        busy: busy_cards(gpus, n),
        watts: draw_of(s),
        temp: most(gpus, "temp"@, n),
        cap: sum_over(gpus, "power_limit"@, n),
        vram: fullest(gpus, n),
        fan: most(gpus, "fan"@, n),
        uptime: num_member(s, "uptime_sec"@, whole(0)),
    }
}

/// Whether a server draws so much of its limit that this is worth a line.
pub open spec fn is_capped(f: Facts) -> bool {
    less(whole(0), f.cap) && at_most(dec(POWER_ALERT as nat, -2), quotient(f.watts, f.cap))
}

/// The anomalies of a server.
pub open spec fn alerts_of(f: Facts) -> Seq<Seq<char>> {
    (if at_most(whole(TEMP_ALERT as int), f.temp) {
        seq![
            f.name + ": GPU 온도 "@ + rounded_text(f.temp) + "도 (임계 "@ + numeral(
                TEMP_ALERT as nat,
            ) + "도)"@,
        ]
    } else {
        seq![]
    }) + if is_capped(f) {
        seq![
            f.name + ": 전력 "@ + rounded_text(f.watts) + " W, 제한 "@ + rounded_text(f.cap)
                + " W의 "@ + rounded_text(product(quotient(f.watts, f.cap), whole(100)))
                + "% (전력 상한 근접)"@,
        ]
    } else {
        seq![]
    }
}

/// The line on a server whose memory is nearly full.
pub open spec fn vram_of(f: Facts) -> Seq<Seq<char>> {
    if at_most(dec(VRAM_ALERT as nat, -2), f.vram) {
        seq![f.name + " "@ + rounded_text(product(f.vram, whole(100))) + "%"@]
    } else {
        seq![]
    }
}

/// The line on a server whose fans are open. Some cards report more than their maximum; that
/// reads as one hundred.
pub open spec fn fans_of(f: Facts) -> Seq<Seq<char>> {
    if at_most(whole(FAN_ALERT as int), f.fan) {
        seq![f.name + " "@ + rounded_text(smaller(f.fan, whole(100))) + "%"@]
    } else {
        seq![]
    }
}

/// The line on a server that was started within a day.
pub open spec fn reboot_of(f: Facts) -> Seq<Seq<char>> {
    if less(whole(0), f.uptime) && less(f.uptime, whole(86_400)) {
        seq![f.name + " "@ + rounded_text(quotient(f.uptime, whole(3600))) + "시간"@]
    } else {
        seq![]
    }
}

/// The line on a server.
pub open spec fn line_of(f: Facts) -> Seq<char> {
    f.name + " ("@ + f.model + "): GPU "@ + numeral(f.busy) + "/"@ + numeral(f.count)
        + " 사용중, "@ + rounded_text(f.watts) + " W, 최고 "@ + rounded_text(f.temp)
        + "도, 랙 "@ + f.loc
}

// ---------------------------------------------------------------- the facts of them all

/// What the servers add up to.
pub ghost struct Digest {
    pub lines: Seq<Seq<char>>,
    pub down: Seq<Seq<char>>,
    pub alerts: Seq<Seq<char>>,
    pub hottest: Option<(Seq<char>, Double)>,
    pub thirstiest: Option<(Seq<char>, Double, Double)>,
    pub rooms: Seq<(Seq<char>, Double)>,
    pub vram: Seq<Seq<char>>,
    pub fans: Seq<Seq<char>>,
    pub rebooted: Seq<Seq<char>>,
    pub total: nat,
    pub busy: nat,
    pub watts: Double,
}

/// The power of a room.
pub open spec fn room_watts(rooms: Seq<(Seq<char>, Double)>, room: Seq<char>) -> Double {
    match lookup(rooms, room) {
        Some(w) => w,
        None => whole(0),
    }
}

/// What a server that responds adds.
pub open spec fn with_server(d: Digest, f: Facts) -> Digest {
    Digest {
        lines: d.lines.push(line_of(f)),
        down: d.down,
        alerts: d.alerts + alerts_of(f),
        hottest: match d.hottest {
            Some((_, t)) => if less(t, f.temp) {
                Some((f.name, f.temp))
            } else {
                d.hottest
            },
            None => Some((f.name, f.temp)),
        },
        thirstiest: match d.thirstiest {
            Some((_, w, _)) => if less(w, f.watts) {
                Some((f.name, f.watts, f.cap))
            } else {
                d.thirstiest
            },
            None => Some((f.name, f.watts, f.cap)),
        },
        rooms: put(d.rooms, f.room, sum(room_watts(d.rooms, f.room), f.watts)),
        vram: d.vram + vram_of(f),
        fans: d.fans + fans_of(f),
        rebooted: d.rebooted + reboot_of(f),
        total: d.total + f.count,
        busy: d.busy + f.busy,
        watts: sum(d.watts, f.watts),
    }
}

/// What a server adds.
pub open spec fn digest_step(d: Digest, s: Json) -> Digest {
    if !responds(s) {
        Digest { down: d.down.push(name_of(s)), ..d }
    } else {
        match cards_of(s) {
            Some(g) => with_server(d, facts_of(s, g)),
            None => d,
        }
    }
}

/// What the first `k` servers add up to.
pub open spec fn digest_after(servers: Seq<Json>, k: int) -> Digest
    decreases k,
{
    if k <= 0 {
        Digest {
            lines: seq![],
            down: seq![],
            alerts: seq![],
            hottest: None,
            thirstiest: None,
            rooms: seq![],
            vram: seq![],
            fans: seq![],
            rebooted: seq![],
            total: 0,
            busy: 0,
            watts: whole(0),
        }
    } else {
        digest_step(digest_after(servers, k - 1), servers[k - 1])
    }
}

// ---------------------------------------------------------------- the briefing

/// All anomalies: those of the servers that respond, then those that do not respond.
pub open spec fn all_alerts(d: Digest) -> Seq<Seq<char>> {
    d.alerts + d.down.map_values(|n: Seq<char>| n + ": 응답 없음"@)
}

/// The verdict.
pub open spec fn verdict(n: nat) -> Seq<char> {
    if n == 0 {
        "판정: 이상 없음\n"@
    } else {
        "판정: 이상 징후 "@ + numeral(n) + "건\n이상 징후:\n"@
    }
}

/// The first `k` anomalies, each on a line.
pub open spec fn alert_lines(alerts: Seq<Seq<char>>, k: int) -> Seq<char>
    decreases k,
{
    if k <= 0 {
        seq![]
    } else {
        alert_lines(alerts, k - 1) + "- "@ + alerts[k - 1] + "\n"@
    }
}

/// The line on the server that draws most.
pub open spec fn thirst_text(t: Option<(Seq<char>, Double, Double)>) -> Seq<char> {
    match t {
        Some((n, w, cap)) => "- 서버 중에서는 "@ + n + "이 "@ + rounded_text(w)
            + " W로 전력을 가장 많이 쓰는 중"@ + share_text(w, cap) + "\n"@,
        None => seq![],
    }
}

/// What share of its limit a server draws.
pub open spec fn share_text(w: Double, cap: Double) -> Seq<char> {
    if less(whole(0), cap) {
        " (제한 "@ + rounded_text(cap) + " W의 "@ + rounded_text(
            product(quotient(w, cap), whole(100)),
        ) + "%)"@
    } else {
        seq![]
    }
}

/// The line on the hottest card.
pub open spec fn heat_text(h: Option<(Seq<char>, Double)>) -> Seq<char> {
    match h {
        Some((n, t)) => "- 가장 뜨거운 카드는 "@ + n + "의 "@ + rounded_text(t)
            + "도 (경고 임계 "@ + numeral(TEMP_ALERT as nat) + "도)\n"@,
        None => seq![],
    }
}

/// Which of the first `k` rooms draws most; the first in the order of their names where two
/// draw the same.
pub open spec fn top_room(rooms: Seq<(Seq<char>, Double)>, k: int) -> int
    decreases k,
{
    if k <= 1 {
        0
    } else {
        let t = top_room(rooms, k - 1);
        if less(rooms[t].1, rooms[k - 1].1) {
            k - 1
        } else {
            t
        }
    }
}

/// The line on the room that draws most.
pub open spec fn room_text(rooms: Seq<(Seq<char>, Double)>) -> Seq<char> {
    if rooms.len() == 0 {
        seq![]
    } else {
        let (room, w) = rooms[top_room(rooms, rooms.len() as int)];
        "- 랙 중에서는 "@ + room + "이 "@ + rounded_text(w) + " W로 전력을 가장 많이 쓰는 중\n"@
    }
}

/// The line on the servers whose memory is nearly full.
pub open spec fn vram_text(v: Seq<Seq<char>>) -> Seq<char> {
    if v.len() == 0 {
        seq![]
    } else {
        "- VRAM이 "@ + rounded_text(product(dec(VRAM_ALERT as nat, -2), whole(100)))
            + "% 이상 차서 추가 할당 시 OOM 위험: "@ + joined(v, ", "@) + "\n"@
    }
}

/// The line on the servers whose fans are open.
pub open spec fn fans_text(v: Seq<Seq<char>>) -> Seq<char> {
    if v.len() == 0 {
        seq![]
    } else {
        "- 팬이 "@ + numeral(FAN_ALERT as nat) + "% 이상으로 냉각 여력이 없음: "@ + joined(v, ", "@)
            + "\n"@
    }
}

/// The line on the servers that were started within a day.
pub open spec fn reboot_text(v: Seq<Seq<char>>) -> Seq<char> {
    if v.len() == 0 {
        seq![]
    } else {
        "- 24시간 안에 재부팅되어 실행 중이던 작업이 끊겼을 수 있음: "@ + joined(v, ", "@) + "\n"@
    }
}

/// The line on how the power has changed since the last briefing.
pub open spec fn trend_text(trend: Option<(Double, u32)>, watts: Double) -> Seq<char> {
    match trend {
        Some((prev, mins)) => "- 직전 브리핑("@ + numeral(mins as nat)
            + "분 전)과 비교하면 전력이 "@ + rounded_text(prev) + " W에서 "@ + rounded_text(watts)
            + " W로 "@ + (if at_most(whole(0), difference(watts, prev)) {
            "+"@
        } else {
            ""@
        }) + rounded_text(difference(watts, prev)) + " W 변함\n"@,
        None => seq![],
    }
}

/// The line on the whole.
pub open spec fn totals_text(d: Digest) -> Seq<char> {
    "- 전체 규모: GPU "@ + numeral(d.total) + "대 중 "@ + numeral(d.busy)
        + "대 사용 중, 서버 "@ + numeral(d.lines.len() + d.down.len()) + "대 중 "@ + numeral(
        d.lines.len(),
    ) + "대 응답, 총 "@ + rounded_text(d.watts) + " W\n"@
}

/// The briefing for the model.
pub open spec fn briefing(d: Digest, trend: Option<(Double, u32)>) -> Seq<char> {
    let alerts = all_alerts(d);
    verdict(alerts.len()) + alert_lines(alerts, alerts.len() as int) + "관측:\n"@ + thirst_text(
        d.thirstiest,
    ) + heat_text(d.hottest) + room_text(d.rooms) + vram_text(d.vram) + fans_text(d.fans)
        + reboot_text(d.rebooted) + trend_text(trend, d.watts) + totals_text(d)
        + "\n서버별:\n"@ + joined(d.lines, "\n"@)
}

/// A text without the byte-order marks at its front.
pub open spec fn without_mark(s: Seq<char>) -> Seq<char>
    decreases s.len(),
{
    if s.len() > 0 && s[0] == '\u{feff}' {
        without_mark(s.skip(1))
    } else {
        s
    }
}

/// The servers of a snapshot, where it can be read and has a list of them.
pub open spec fn servers_of(snapshot: Seq<char>) -> Option<Seq<Json>> {
    match parsed_json(without_mark(snapshot)) {
        Ok(v) => match member(v, "servers"@) {
            Some(Json::Arr(a)) => Some(a),
            _ => None,
        },
        Err(_) => None,
    }
}

/// The briefing on a snapshot; none where the snapshot cannot be read or names no server.
pub open spec fn digest_of(snapshot: Seq<char>, trend: Option<(Double, u32)>) -> Option<Seq<char>> {
    match servers_of(snapshot) {
        Some(a) => {
            let d = digest_after(a, a.len() as int);
            if d.lines.len() == 0 && d.down.len() == 0 {
                None
            } else {
                Some(briefing(d, trend))
            }
        },
        None => None,
    }
}

/// The power that the first `k` servers draw, of those that respond.
pub open spec fn watts_over(servers: Seq<Json>, k: int) -> Double
    decreases k,
{
    if k <= 0 {
        no_sum()
    } else if responds(servers[k - 1]) {
        sum(watts_over(servers, k - 1), draw_of(servers[k - 1]))
    } else {
        watts_over(servers, k - 1)
    }
}

// ---------------------------------------------------------------- working the facts out

fn is_card_busy(g: &Value) -> (r: bool)
    ensures
        r == card_busy(g@),
{
    let zero = Double::from_u64(0);
    Double::from_u64(5).le(g.num_or("util", zero)) || Double::from_u64(512).lt(
        g.num_or("mem_used", zero),
    )
}

/// What is worked out of a server that responds.
struct Seen {
    name: String,
    model: String,
    loc: String,
    room: String,
    count: usize,
    busy: usize,
    watts: Double,
    temp: Double,
    cap: Double,
    vram: Double,
    fan: Double,
    uptime: Double,
}

impl Seen {
    spec fn facts(self) -> Facts {
        Facts {
            name: self.name@,
            model: self.model@,
            loc: self.loc@,
            room: self.room@,
            count: self.count as nat,
            busy: self.busy as nat,
            watts: self.watts,
            temp: self.temp,
            cap: self.cap,
            vram: self.vram,
            fan: self.fan,
            uptime: self.uptime,
        }
    }
}

fn see(s: &Value, gpus: &Vec<Value>) -> (r: Seen)
    ensures
        r.facts() == facts_of(s@, json(Value::Arr(*gpus))->Arr_0),
        r.busy <= r.count,
{
    let ghost a = json(Value::Arr(*gpus))->Arr_0;
    let zero = Double::from_u64(0);
    let mut busy: usize = 0;
    let mut temp = Double::from_u64(0);
    let mut cap = Double::no_sum();
    let mut vram = Double::from_u64(0);
    let mut fan = Double::from_u64(0);
    let mut k: usize = 0;
    while k < gpus.len()
        invariant
            k <= gpus@.len(),
            a == json(Value::Arr(*gpus))->Arr_0,
            zero == whole(0),
            busy <= k,
            busy == busy_cards(a, k as int),
            temp == most(a, "temp"@, k as int),
            cap == sum_over(a, "power_limit"@, k as int),
            vram == fullest(a, k as int),
            fan == most(a, "fan"@, k as int),
        decreases gpus@.len() - k,
    {
        let g = &gpus[k];
        assert(a[k as int] == g@);
        if is_card_busy(g) {
            busy = busy + 1;
        }
        temp = temp.max(g.num_or("temp", zero));
        cap = cap.plus(g.num_or("power_limit", zero));
        if zero.lt(g.num_or("mem_total", zero)) {
            vram =
            vram.max(
                g.num_or("mem_used", zero).over(g.num_or("mem_total", Double::from_u64(1))),
            );
        }
        fan = fan.max(g.num_or("fan", zero));
        k = k + 1;
    }
    Seen {
        name: own(s.str_or("name", "?")),
        model: own(s.str_or("gpu_model", "")),
        loc: own(s.str_or("loc", "")),
        room: own(s.str_or("loc", "?")),
        count: gpus.len(),
        busy,
        watts: s.num_or("watts", zero),
        temp,
        cap,
        vram,
        fan,
        uptime: s.num_or("uptime_sec", zero),
    }
}

/// What the servers add up to.
struct Tally {
    lines: Vec<String>,
    down: Vec<String>,
    alerts: Vec<String>,
    hottest: Option<(String, Double)>,
    thirstiest: Option<(String, Double, Double)>,
    rooms: Table<Double>,
    vram: Vec<String>,
    fans: Vec<String>,
    rebooted: Vec<String>,
    total: u128,
    busy: u128,
    watts: Double,
}

impl Tally {
    spec fn digest(self) -> Digest {
        Digest {
            lines: views(self.lines@),
            down: views(self.down@),
            alerts: views(self.alerts@),
            hottest: match self.hottest {
                Some((n, t)) => Some((n@, t)),
                None => None,
            },
            thirstiest: match self.thirstiest {
                Some((n, w, c)) => Some((n@, w, c)),
                None => None,
            },
            rooms: self.rooms@,
            vram: views(self.vram@),
            fans: views(self.fans@),
            rebooted: views(self.rebooted@),
            total: self.total as nat,
            busy: self.busy as nat,
            watts: self.watts,
        }
    }
}

fn push(v: &mut Vec<String>, s: String)
    ensures
        views(final(v)@) == views(old(v)@).push(s@),
{
    let ghost held = views(v@);
    v.push(s);
    assert(views(v@) =~= held.push(s@));
}

fn add_alerts(v: &mut Vec<String>, f: &Seen)
    ensures
        views(final(v)@) == views(old(v)@) + alerts_of(f.facts()),
{
    let ghost held = views(v@);
    let ghost mut added: Seq<Seq<char>> = seq![];
    if Double::from_u64(TEMP_ALERT).le(f.temp) {
        let mut t = own(f.name.as_str());
        t.append(": GPU 온도 ");
        t.append(round_text(f.temp).as_str());
        t.append("도 (임계 ");
        t.append(u64_numeral(TEMP_ALERT).as_str());
        t.append("도)");
        proof {
            added = seq![t@];
        }
        push(v, t);
    }
    assert(views(v@) =~= held + added);
    let zero = Double::from_u64(0);
    if zero.lt(f.cap) && literal(POWER_ALERT, -2).le(f.watts.over(f.cap)) {
        let mut t = own(f.name.as_str());
        t.append(": 전력 ");
        t.append(round_text(f.watts).as_str());
        t.append(" W, 제한 ");
        t.append(round_text(f.cap).as_str());
        t.append(" W의 ");
        t.append(round_text(f.watts.over(f.cap).times(Double::from_u64(100))).as_str());
        t.append("% (전력 상한 근접)");
        let ghost more = t@;
        push(v, t);
        proof {
            assert((held + added).push(more) =~= held + (added + seq![more]));
            assert(added + seq![more] =~= alerts_of(f.facts()));
        }
    } else {
        assert(added + seq![] =~= added);
        assert(added =~= alerts_of(f.facts()));
    }
}

fn add_vram(v: &mut Vec<String>, f: &Seen)
    ensures
        views(final(v)@) == views(old(v)@) + vram_of(f.facts()),
{
    let ghost held = views(v@);
    if literal(VRAM_ALERT, -2).le(f.vram) {
        let mut t = own(f.name.as_str());
        t.append(" ");
        t.append(round_text(f.vram.times(Double::from_u64(100))).as_str());
        t.append("%");
        push(v, t);
    }
    assert(views(v@) =~= held + vram_of(f.facts()));
}

fn add_fans(v: &mut Vec<String>, f: &Seen)
    ensures
        views(final(v)@) == views(old(v)@) + fans_of(f.facts()),
{
    let ghost held = views(v@);
    if Double::from_u64(FAN_ALERT).le(f.fan) {
        let mut t = own(f.name.as_str());
        t.append(" ");
        t.append(round_text(f.fan.min(Double::from_u64(100))).as_str());
        t.append("%");
        push(v, t);
    }
    assert(views(v@) =~= held + fans_of(f.facts()));
}

fn add_reboot(v: &mut Vec<String>, f: &Seen)
    ensures
        views(final(v)@) == views(old(v)@) + reboot_of(f.facts()),
{
    let ghost held = views(v@);
    if Double::from_u64(0).lt(f.uptime) && f.uptime.lt(Double::from_u64(86_400)) {
        let mut t = own(f.name.as_str());
        t.append(" ");
        t.append(round_text(f.uptime.over(Double::from_u64(3600))).as_str());
        t.append("시간");
        push(v, t);
    }
    assert(views(v@) =~= held + reboot_of(f.facts()));
}

fn server_line(f: &Seen) -> (r: String)
    ensures
        r@ == line_of(f.facts()),
{
    let mut t = own(f.name.as_str());
    t.append(" (");
    t.append(f.model.as_str());
    t.append("): GPU ");
    t.append(u64_numeral(f.busy as u64).as_str());
    t.append("/");
    t.append(u64_numeral(f.count as u64).as_str());
    t.append(" 사용중, ");
    t.append(round_text(f.watts).as_str());
    t.append(" W, 최고 ");
    t.append(round_text(f.temp).as_str());
    t.append("도, 랙 ");
    t.append(f.loc.as_str());
    t
}

impl Tally {
    fn add_server(&mut self, f: Seen)
        requires
            old(self).total + f.count <= u128::MAX,
            old(self).busy <= old(self).total,
            f.busy <= f.count,
        ensures
            final(self).digest() == with_server(old(self).digest(), f.facts()),
            final(self).total == old(self).total + f.count,
            final(self).busy <= final(self).total,
    {
        self.total = self.total + f.count as u128;
        self.busy = self.busy + f.busy as u128;
        self.watts = self.watts.plus(f.watts);
        let held: Double = match self.rooms.get(f.room.as_str()) {
            Some(w) => *w,
            None => Double::from_u64(0),
        };
        self.rooms.insert(own(f.room.as_str()), held.plus(f.watts));
        add_vram(&mut self.vram, &f);
        add_fans(&mut self.fans, &f);
        add_reboot(&mut self.rebooted, &f);
        add_alerts(&mut self.alerts, &f);
        let hotter: bool = match &self.hottest {
            Some(h) => h.1.lt(f.temp),
            None => true,
        };
        if hotter {
            self.hottest = Some((own(f.name.as_str()), f.temp));
        }
        let thirstier: bool = match &self.thirstiest {
            Some(h) => h.1.lt(f.watts),
            None => true,
        };
        if thirstier {
            self.thirstiest = Some((own(f.name.as_str()), f.watts, f.cap));
        }
        push(&mut self.lines, server_line(&f));
    }
}

fn tally(servers: &Vec<Value>) -> (r: Tally)
    ensures
        r.digest() == digest_after(
            json(Value::Arr(*servers))->Arr_0,
            servers@.len() as int,
        ),
{
    let ghost a = json(Value::Arr(*servers))->Arr_0;
    let mut t = Tally {
        lines: Vec::new(),
        down: Vec::new(),
        alerts: Vec::new(),
        hottest: None,
        thirstiest: None,
        rooms: Table::new(),
        vram: Vec::new(),
        fans: Vec::new(),
        rebooted: Vec::new(),
        total: 0,
        busy: 0,
        watts: Double::from_u64(0),
    };
    let mut k: usize = 0;
    proof {
        let none: Seq<Seq<char>> = seq![];
        assert(views(t.lines@) =~= none);
        assert(views(t.down@) =~= none);
        assert(views(t.alerts@) =~= none);
        assert(views(t.vram@) =~= none);
        assert(views(t.fans@) =~= none);
        assert(views(t.rebooted@) =~= none);
        assert(t.rooms@ =~= seq![]);
    }
    while k < servers.len()
        invariant
            k <= servers@.len(),
            a == json(Value::Arr(*servers))->Arr_0,
            t.digest() == digest_after(a, k as int),
            t.busy <= t.total <= k * 0xffff_ffff_ffff_ffff,
        decreases servers@.len() - k,
    {
        let s = &servers[k];
        assert(a[k as int] == s@);
        proof {
            let kk = k as int;
            assert(kk * 0xffff_ffff_ffff_ffff + 0xffff_ffff_ffff_ffff <= 0xffff_ffff_ffff_ffff
                * 0xffff_ffff_ffff_ffff) by (nonlinear_arith)
                requires
                    0 <= kk < 0xffff_ffff_ffff_ffff,
            ;
        }
        if !eq_str(s.str_or("status", ""), "ok") {
            push(&mut t.down, own(s.str_or("name", "?")));
        } else {
            if let Some(x) = s.get("gpus") {
                if let Some(g) = x.as_arr() {
                    let f = see(s, g);
                    t.add_server(f);
                }
            }
        }
        k = k + 1;
    }
    t
}

// ---------------------------------------------------------------- writing the briefing

fn blank() -> (r: String)
    ensures
        r@ == Seq::<char>::empty(),
{
    String::new()
}

fn share(w: Double, cap: Double) -> (r: String)
    ensures
        r@ == share_text(w, cap),
{
    if Double::from_u64(0).lt(cap) {
        let mut t = own(" (제한 ");
        t.append(round_text(cap).as_str());
        t.append(" W의 ");
        t.append(round_text(w.over(cap).times(Double::from_u64(100))).as_str());
        t.append("%)");
        t
    } else {
        blank()
    }
}

fn thirst(h: &Option<(String, Double, Double)>) -> (r: String)
    ensures
        r@ == thirst_text(
            match *h {
                Some((n, w, c)) => Some((n@, w, c)),
                None => None,
            },
        ),
{
    match h {
        Some(x) => {
            let mut t = own("- 서버 중에서는 ");
            t.append(x.0.as_str());
            t.append("이 ");
            t.append(round_text(x.1).as_str());
            t.append(" W로 전력을 가장 많이 쓰는 중");
            t.append(share(x.1, x.2).as_str());
            t.append("\n");
            t
        },
        None => blank(),
    }
}

fn heat(h: &Option<(String, Double)>) -> (r: String)
    ensures
        r@ == heat_text(
            match *h {
                Some((n, t)) => Some((n@, t)),
                None => None,
            },
        ),
{
    match h {
        Some(x) => {
            let mut t = own("- 가장 뜨거운 카드는 ");
            t.append(x.0.as_str());
            t.append("의 ");
            t.append(round_text(x.1).as_str());
            t.append("도 (경고 임계 ");
            t.append(u64_numeral(TEMP_ALERT).as_str());
            t.append("도)\n");
            t
        },
        None => blank(),
    }
}

fn room(rooms: &Table<Double>) -> (r: String)
    ensures
        r@ == room_text(rooms@),
{
    if rooms.entries.len() == 0 {
        return blank();
    }
    let mut top: usize = 0;
    let mut k: usize = 1;
    while k < rooms.entries.len()
        invariant
            1 <= k <= rooms@.len(),
            top < k,
            top == top_room(rooms@, k as int),
        decreases rooms@.len() - k,
    {
        if rooms.entries[top].1.lt(rooms.entries[k].1) {
            top = k;
        }
        k = k + 1;
    }
    let mut t = own("- 랙 중에서는 ");
    t.append(rooms.entries[top].0.as_str());
    t.append("이 ");
    t.append(round_text(rooms.entries[top].1).as_str());
    t.append(" W로 전력을 가장 많이 쓰는 중\n");
    t
}

fn full_memory(v: &Vec<String>) -> (r: String)
    ensures
        r@ == vram_text(views(v@)),
{
    if v.len() == 0 {
        return blank();
    }
    let mut t = own("- VRAM이 ");
    t.append(round_text(literal(VRAM_ALERT, -2).times(Double::from_u64(100))).as_str());
    t.append("% 이상 차서 추가 할당 시 OOM 위험: ");
    t.append(join(v, ", ").as_str());
    t.append("\n");
    t
}

fn open_fans(v: &Vec<String>) -> (r: String)
    ensures
        r@ == fans_text(views(v@)),
{
    if v.len() == 0 {
        return blank();
    }
    let mut t = own("- 팬이 ");
    t.append(u64_numeral(FAN_ALERT).as_str());
    t.append("% 이상으로 냉각 여력이 없음: ");
    t.append(join(v, ", ").as_str());
    t.append("\n");
    t
}

fn reboots(v: &Vec<String>) -> (r: String)
    ensures
        r@ == reboot_text(views(v@)),
{
    if v.len() == 0 {
        return blank();
    }
    let mut t = own("- 24시간 안에 재부팅되어 실행 중이던 작업이 끊겼을 수 있음: ");
    t.append(join(v, ", ").as_str());
    t.append("\n");
    t
}

fn change(trend: Option<(Double, u32)>, watts: Double) -> (r: String)
    ensures
        r@ == trend_text(trend, watts),
{
    match trend {
        Some((prev, mins)) => {
            let d = watts.minus(prev);
            let mut t = own("- 직전 브리핑(");
            t.append(u64_numeral(mins as u64).as_str());
            t.append("분 전)과 비교하면 전력이 ");
            t.append(round_text(prev).as_str());
            t.append(" W에서 ");
            t.append(round_text(watts).as_str());
            t.append(" W로 ");
            t.append(
                if Double::from_u64(0).le(d) {
                    "+"
                } else {
                    ""
                },
            );
            t.append(round_text(d).as_str());
            t.append(" W 변함\n");
            t
        },
        None => blank(),
    }
}

fn whole_picture(t: &Tally) -> (r: String)
    ensures
        r@ == totals_text(t.digest()),
{
    let up: u128 = t.lines.len() as u128;
    let all: u128 = up + t.down.len() as u128;
    let mut s = own("- 전체 규모: GPU ");
    s.append(u128_numeral(t.total).as_str());
    s.append("대 중 ");
    s.append(u128_numeral(t.busy).as_str());
    s.append("대 사용 중, 서버 ");
    s.append(u128_numeral(all).as_str());
    s.append("대 중 ");
    s.append(u128_numeral(up).as_str());
    s.append("대 응답, 총 ");
    s.append(round_text(t.watts).as_str());
    s.append(" W\n");
    s
}

fn anomalies(t: &Tally) -> (r: Vec<String>)
    ensures
        views(r@) == all_alerts(t.digest()),
{
    let ghost a = views(t.alerts@);
    let ghost d = views(t.down@).map_values(|n: Seq<char>| n + ": 응답 없음"@);
    let mut out: Vec<String> = Vec::new();
    let mut i: usize = 0;
    assert(views(out@) =~= a.take(0));
    while i < t.alerts.len()
        invariant
            i <= t.alerts@.len(),
            a == views(t.alerts@),
            views(out@) == a.take(i as int),
        decreases t.alerts@.len() - i,
    {
        push(&mut out, own(t.alerts[i].as_str()));
        assert(a.take(i + 1) =~= a.take(i as int).push(t.alerts@[i as int]@));
        i = i + 1;
    }
    let mut j: usize = 0;
    assert(a.take(i as int) + d.take(0) =~= a.take(i as int));
    while j < t.down.len()
        invariant
            i == t.alerts@.len(),
            j <= t.down@.len(),
            a == views(t.alerts@),
            d == views(t.down@).map_values(|n: Seq<char>| n + ": 응답 없음"@),
            views(out@) == a.take(i as int) + d.take(j as int),
        decreases t.down@.len() - j,
    {
        let mut s = own(t.down[j].as_str());
        s.append(": 응답 없음");
        proof {
            assert((a.take(i as int) + d.take(j as int)).push(s@) =~= a.take(i as int) + d.take(
                j + 1,
            ));
        }
        push(&mut out, s);
        j = j + 1;
    }
    proof {
        assert(a.take(a.len() as int) =~= a);
        assert(d.take(d.len() as int) =~= d);
    }
    out
}

fn write_briefing(t: &Tally, trend: Option<(Double, u32)>) -> (r: String)
    ensures
        r@ == briefing(t.digest(), trend),
{
    let alerts = anomalies(t);
    let ghost all = all_alerts(t.digest());
    let mut s = if alerts.len() == 0 {
        own("판정: 이상 없음\n")
    } else {
        let mut v = own("판정: 이상 징후 ");
        v.append(u64_numeral(alerts.len() as u64).as_str());
        v.append("건\n이상 징후:\n");
        v
    };
    let mut i: usize = 0;
    let ghost head = s@;
    assert(head + alert_lines(all, 0) =~= head);
    while i < alerts.len()
        invariant
            i <= alerts@.len(),
            all == views(alerts@),
            s@ == head + alert_lines(all, i as int),
        decreases alerts@.len() - i,
    {
        s.append("- ");
        s.append(alerts[i].as_str());
        s.append("\n");
        assert(s@ =~= head + alert_lines(all, i + 1));
        i = i + 1;
    }
    s.append("관측:\n");
    s.append(thirst(&t.thirstiest).as_str());
    s.append(heat(&t.hottest).as_str());
    s.append(room(&t.rooms).as_str());
    s.append(full_memory(&t.vram).as_str());
    s.append(open_fans(&t.fans).as_str());
    s.append(reboots(&t.rebooted).as_str());
    s.append(change(trend, t.watts).as_str());
    s.append(whole_picture(t).as_str());
    s.append("\n서버별:\n");
    s.append(join(&t.lines, "\n").as_str());
    s
}

fn skip_marks(snapshot: &str) -> (r: String)
    ensures
        r@ == without_mark(snapshot@),
{
    let v = chars_of(snapshot);
    let mut i: usize = 0;
    assert(snapshot@.skip(0) =~= snapshot@);
    while i < v.len() && v[i] == '\u{feff}'
        invariant
            i <= v@.len(),
            v@ == snapshot@,
            without_mark(snapshot@) == without_mark(snapshot@.skip(i as int)),
        decreases v@.len() - i,
    {
        assert(snapshot@.skip(i as int).skip(1) =~= snapshot@.skip(i + 1));
        i = i + 1;
    }
    let rest = part(v.as_slice(), i, v.len());
    assert(rest@ =~= snapshot@.skip(i as int));
    string_of(rest)
}

/// The briefing on a snapshot; none where it cannot be read or names no server.
pub fn digest(snapshot: &str) -> (r: Option<String>)
    ensures
        match r {
            Some(t) => digest_of(snapshot@, None) == Some(t@),
            None => digest_of(snapshot@, None) is None,
        },
{
    digest_with_trend(snapshot, None)
}

/// The briefing on a snapshot, with the power drawn at the last briefing and how many minutes
/// ago that was.
pub fn digest_with_trend(snapshot: &str, trend: Option<(Double, u32)>) -> (r: Option<String>)
    ensures
        match r {
            Some(t) => digest_of(snapshot@, trend) == Some(t@),
            None => digest_of(snapshot@, trend) is None,
        },
{
    let text = skip_marks(snapshot);
    let v = match parse(text.as_str()) {
        Ok(v) => v,
        Err(_) => {
            return None;
        },
    };
    let servers: &Vec<Value> = match v.get("servers") {
        Some(x) => match x.as_arr() {
            Some(a) => a,
            None => {
                return None;
            },
        },
        None => {
            return None;
        },
    };
    let t = tally(servers);
    if t.lines.len() == 0 && t.down.len() == 0 {
        return None;
    }
    Some(write_briefing(&t, trend))
}

/// The power that the servers of a snapshot draw, of those that respond.
pub fn total_watts(snapshot: &str) -> (r: Option<Double>)
    ensures
        r == match servers_of(snapshot@) {
            Some(a) => Some(watts_over(a, a.len() as int)),
            None => None,
        },
{
    let text = skip_marks(snapshot);
    let v = match parse(text.as_str()) {
        Ok(v) => v,
        Err(_) => {
            return None;
        },
    };
    let servers: &Vec<Value> = match v.get("servers") {
        Some(x) => match x.as_arr() {
            Some(a) => a,
            None => {
                return None;
            },
        },
        None => {
            return None;
        },
    };
    let ghost a = json(Value::Arr(*servers))->Arr_0;
    let mut w = Double::no_sum();
    let mut k: usize = 0;
    while k < servers.len()
        invariant
            k <= servers@.len(),
            a == json(Value::Arr(*servers))->Arr_0,
            w == watts_over(a, k as int),
        decreases servers@.len() - k,
    {
        let s = &servers[k];
        assert(a[k as int] == s@);
        if eq_str(s.str_or("status", ""), "ok") {
            w = w.plus(s.num_or("watts", Double::from_u64(0)));
        }
        k = k + 1;
    }
    Some(w)
}

// ---------------------------------------------------------------- what the briefing says

/// The verdict is that nothing is wrong just where no server has an anomaly and every one
/// responds.
pub proof fn lemma_verdict(servers: Seq<Json>, k: int)
    requires
        0 <= k <= servers.len(),
    ensures
        all_alerts(digest_after(servers, k)).len() == 0 <==> forall|i: int|
            0 <= i < k ==> responds(#[trigger] servers[i]) && (cards_of(servers[i]) matches Some(g)
                ==> alerts_of(facts_of(servers[i], g)).len() == 0),
    decreases k,
{
    if k > 0 {
        lemma_verdict(servers, k - 1);
        let d = digest_after(servers, k - 1);
        let s = servers[k - 1];
        assert(all_alerts(d).len() == d.alerts.len() + d.down.len());
        assert(all_alerts(digest_after(servers, k)).len() == digest_after(servers, k).alerts.len()
            + digest_after(servers, k).down.len());
    }
}

/// The counts are those of the servers: every one that responds and lists its cards has a line,
/// every one that does not respond is named.
pub proof fn lemma_counts(servers: Seq<Json>, k: int)
    requires
        0 <= k <= servers.len(),
    ensures
        digest_after(servers, k).busy <= digest_after(servers, k).total,
        digest_after(servers, k).lines.len() + digest_after(servers, k).down.len() <= k,
    decreases k,
{
    if k > 0 {
        lemma_counts(servers, k - 1);
        if let Some(g) = cards_of(servers[k - 1]) {
            lemma_busy_cards(g, g.len() as int);
        }
    }
}

proof fn lemma_busy_cards(gpus: Seq<Json>, k: int)
    requires
        0 <= k,
    ensures
        busy_cards(gpus, k) <= k,
    decreases k,
{
    if k > 0 {
        lemma_busy_cards(gpus, k - 1);
    }
}

// ---------------------------------------------------------------- the published file

/// The file that is published.
pub open spec fn published(text: Seq<char>, ts: u32, model: Seq<char>) -> Seq<char> {
    object_text(
        seq![
            entry("ts"@, num_text(whole(ts as int))),
            entry("model"@, quoted(model)),
            entry("text"@, quoted(text)),
        ],
    )
}

/// The file that is published.
pub fn write_json(text: &str, ts: u32, model: &str) -> (r: String)
    ensures
        r@ == published(text@, ts, model@),
{
    let mut w = Writer::new();
    w.raw("{");
    let ghost b = w.buf@;
    let ghost mut done: Seq<Seq<char>> = seq![];
    assert(b + listed(done) =~= b);
    w.num_entry(Ghost(b), Ghost(done), true, "ts", Double::from_u64(ts as u64));
    proof {
        done = done.push(entry("ts"@, num_text(whole(ts as int))));
    }
    w.str_entry(Ghost(b), Ghost(done), false, "model", model);
    proof {
        done = done.push(entry("model"@, quoted(model@)));
    }
    w.str_entry(Ghost(b), Ghost(done), false, "text", text);
    proof {
        done = done.push(entry("text"@, quoted(text@)));
    }
    w.raw("}");
    proof {
        reveal_strlit("{");
        reveal_strlit("}");
        assert(done =~= seq![
            entry("ts"@, num_text(whole(ts as int))),
            entry("model"@, quoted(model@)),
            entry("text"@, quoted(text@)),
        ]);
        assert(w.buf@ =~= object_text(done));
    }
    w.buf
}

} // verus!
