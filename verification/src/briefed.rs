//! What the briefing tells of the servers.
//!
//! A server counts where it responds and lists its cards. The laws here say, of each line of the
//! briefing, which servers and cards it goes by.

use vstd::prelude::*;
use crate::counts::{exceeds, lemma_reaches, reaches};
use crate::decimal::dec;
use crate::double::{at_most, larger, less, no_sum, product, quotient, sum, whole, Double};
use crate::json::{member, Json};
use crate::summary::{
    alerts_of, all_alerts, briefing, busy_cards, card_busy, cards_of, digest_after, digest_of,
    draw_of, facts_of, fans_of, fullest, heat_text, line_of, most, name_of, reboot_of, responds,
    room_text, room_watts, rounded_text, servers_of, sum_over, thirst_text, top_room, totals_text,
    vram_of, watts_over, Digest,
};
use crate::table::{lemma_put_lookup, lemma_put_ordered, lookup, ordered};
use crate::text::{joined, numeral};

verus! {

broadcast use vstd::string::group_string_axioms;

// ---------------------------------------------------------------- what a server says

/// A text that a value has under a name, or another.
pub open spec fn text_at(j: Json, key: Seq<char>, other: Seq<char>) -> Seq<char> {
    if member(j, key) is Some && member(j, key)->0 is Str {
        member(j, key)->0->Str_0
    } else {
        other
    }
}

/// A number that a value has under a name; zero where it has none.
pub open spec fn number_at(j: Json, key: Seq<char>) -> Double {
    if member(j, key) is Some && member(j, key)->0 is Num {
        member(j, key)->0->Num_0
    } else {
        whole(0)
    }
}

/// Whether a server responds.
pub open spec fn answers(s: Json) -> bool {
    member(s, "status"@) == Some(Json::Str("ok"@))
}

/// Whether a server counts: it responds and lists its cards.
pub open spec fn counts(s: Json) -> bool {
    answers(s) && member(s, "gpus"@) is Some && member(s, "gpus"@)->0 is Arr
}

/// The cards that a server lists.
pub open spec fn listed_cards(s: Json) -> Seq<Json> {
    member(s, "gpus"@)->0->Arr_0
}

/// Whether a card works: it is used to five percent or more, or has more than 512 MB in use.
pub open spec fn card_works(g: Json) -> bool {
    reaches(number_at(g, "util"@), 5) || exceeds(number_at(g, "mem_used"@), 512)
}

pub(crate) proof fn lemma_says(s: Json)
    ensures
        responds(s) == answers(s),
        counts(s) == (responds(s) && cards_of(s) is Some),
        counts(s) ==> cards_of(s) == Some(listed_cards(s)),
        draw_of(s) == number_at(s, "watts"@),
        name_of(s) == text_at(s, "name"@, "?"@),
{
    reveal_strlit("ok");
    assert("ok"@.len() == 2);
    reveal_strlit("");
    assert(""@.len() == 0);
}

// ---------------------------------------------------------------- rooms

/// Those servers that count and are in a room.
pub open spec fn in_room(room: Seq<char>) -> spec_fn(Json) -> bool {
    |s: Json| counts(s) && text_at(s, "loc"@, "?"@) == room
}

/// Adds what a server draws.
pub open spec fn add_draw() -> spec_fn(Double, Json) -> Double {
    |w: Double, s: Json| sum(w, number_at(s, "watts"@))
}

/// The law of the rooms: the figure of a room is the sum of what the servers in it draw, in
/// their order, and of no others; a room has a figure just where a server in it counts.
#[verifier::rlimit(40)]
pub proof fn lemma_room_draws(servers: Seq<Json>, k: int, room: Seq<char>)
    requires
        0 <= k <= servers.len(),
    ensures
        ({
            let there = servers.take(k).filter(in_room(room));
            lookup(digest_after(servers, k).rooms, room) == if there.len() == 0 {
                None
            } else {
                Some(there.fold_left(whole(0), add_draw()))
            }
        }),
    decreases k,
{
    reveal(Seq::filter);
    let there = servers.take(k).filter(in_room(room));
    if k == 0 {
        assert(servers.take(0) =~= seq![]);
        assert(there.len() == 0);
    } else {
        lemma_room_draws(servers, k - 1, room);
        let s = servers[k - 1];
        lemma_says(s);
        assert(servers.take(k).drop_last() =~= servers.take(k - 1));
        assert(servers.take(k).last() == s);
        let before = servers.take(k - 1).filter(in_room(room));
        let d = digest_after(servers, k - 1);
        if counts(s) {
            let f = facts_of(s, listed_cards(s));
            assert(f.room == text_at(s, "loc"@, "?"@));
            lemma_put_lookup(d.rooms, f.room, sum(room_watts(d.rooms, f.room), f.watts), room);
            if f.room == room {
                assert(there == before.push(s));
                assert(there.drop_last() =~= before);
                assert(there.fold_left(whole(0), add_draw()) == sum(
                    before.fold_left(whole(0), add_draw()),
                    f.watts,
                ));
            } else {
                assert(there == before);
            }
        } else {
            assert(there == before);
        }
    }
}

proof fn lemma_rooms_ordered(servers: Seq<Json>, k: int)
    requires
        0 <= k <= servers.len(),
    ensures
        ordered(digest_after(servers, k).rooms),
    decreases k,
{
    if k > 0 {
        lemma_rooms_ordered(servers, k - 1);
        let s = servers[k - 1];
        let d = digest_after(servers, k - 1);
        if responds(s) && cards_of(s) is Some {
            let f = facts_of(s, cards_of(s)->0);
            lemma_put_ordered(d.rooms, f.room, sum(room_watts(d.rooms, f.room), f.watts));
        }
    }
}

proof fn lemma_top_room(rooms: Seq<(Seq<char>, Double)>, k: int)
    requires
        1 <= k <= rooms.len(),
    ensures
        0 <= top_room(rooms, k) < k,
        forall|i: int| 0 <= i < k ==> !less(rooms[top_room(rooms, k)].1, (#[trigger] rooms[i]).1),
    decreases k,
{
    if k > 1 {
        lemma_top_room(rooms, k - 1);
    }
}

proof fn lemma_lookup_at(m: Seq<(Seq<char>, Double)>, i: int)
    requires
        ordered(m),
        0 <= i < m.len(),
    ensures
        lookup(m, m[i].0) == Some(m[i].1),
    decreases m.len(),
{
    let k = m[i].0;
    let rest = m.skip(1);
    if i > 0 {
        assert(crate::text::before(m[0].0, m[i].0));
        crate::table::lemma_before_total(m[0].0, k);
        assert(rest[i - 1] == m[i]);
        assert forall|a: int, b: int| 0 <= a < b < rest.len() implies crate::text::before(
            #[trigger] rest[a].0,
            #[trigger] rest[b].0,
        ) by {
            assert(rest[a] == m[a + 1] && rest[b] == m[b + 1]);
        }
        lemma_lookup_at(rest, i - 1);
    }
}

proof fn lemma_lookup_found(m: Seq<(Seq<char>, Double)>, k: Seq<char>)
    requires
        lookup(m, k) is Some,
    ensures
        exists|i: int| 0 <= i < m.len() && (#[trigger] m[i]) == (k, lookup(m, k)->0),
    decreases m.len(),
{
    if m[0].0 == k {
        assert(m[0] == (k, lookup(m, k)->0));
    } else {
        lemma_lookup_found(m.skip(1), k);
        let i = choose|i: int| 0 <= i < m.skip(1).len() && (#[trigger] m.skip(1)[i]) == (
            k,
            lookup(m.skip(1), k)->0,
        );
        assert(m[i + 1] == m.skip(1)[i]);
    }
}

/// What a room draws: the sum over the servers in it.
pub open spec fn draw_in(servers: Seq<Json>, room: Seq<char>) -> Double {
    servers.filter(in_room(room)).fold_left(whole(0), add_draw())
}

/// The law of the rack line: where a server counts, the line names a room with a server in it and
/// what that room draws, and no other room with a server in it draws more.
pub proof fn lemma_room_line(servers: Seq<Json>) -> (room: Seq<char>)
    requires
        exists|i: int| 0 <= i < servers.len() && counts(#[trigger] servers[i]),
    ensures
        room_text(digest_after(servers, servers.len() as int).rooms) == "- 랙 중에서는 "@ + room
            + "이 "@ + rounded_text(draw_in(servers, room))
            + " W로 전력을 가장 많이 쓰는 중\n"@,
        servers.filter(in_room(room)).len() > 0,
        forall|other: Seq<char>|
            servers.filter(in_room(other)).len() > 0 ==> !less(
                draw_in(servers, room),
                #[trigger] draw_in(servers, other),
            ),
{
    let n = servers.len() as int;
    let rooms = digest_after(servers, n).rooms;
    assert(servers.take(n) =~= servers);
    let i = choose|i: int| 0 <= i < servers.len() && counts(#[trigger] servers[i]);
    let r = text_at(servers[i], "loc"@, "?"@);
    servers.filter_lemma(in_room(r));
    assert(servers.filter(in_room(r)).contains(servers[i]));
    lemma_room_draws(servers, n, r);
    lemma_lookup_found(rooms, r);
    lemma_top_room(rooms, rooms.len() as int);
    let t = top_room(rooms, rooms.len() as int);
    let room = rooms[t].0;
    lemma_rooms_ordered(servers, n);
    lemma_lookup_at(rooms, t);
    lemma_room_draws(servers, n, room);
    assert forall|other: Seq<char>| servers.filter(in_room(other)).len() > 0 implies !less(
        draw_in(servers, room),
        #[trigger] draw_in(servers, other),
    ) by {
        lemma_room_draws(servers, n, other);
        lemma_lookup_found(rooms, other);
        let j = choose|j: int| 0 <= j < rooms.len() && (#[trigger] rooms[j]) == (
            other,
            lookup(rooms, other)->0,
        );
        assert(!less(rooms[t].1, rooms[j].1));
    }
    room
}

// ---------------------------------------------------------------- peaks

/// Whether `t` is the peak of a quantity over cards: none has more, and one has just that, or it
/// is zero.
pub open spec fn is_peak(t: Double, cards: Seq<Json>, key: Seq<char>) -> bool {
    &&& !t.nan()
    &&& !less(t, whole(0))
    &&& forall|j: int| 0 <= j < cards.len() ==> !less(t, number_at(#[trigger] cards[j], key))
    &&& t == whole(0) || exists|j: int|
        0 <= j < cards.len() && number_at(#[trigger] cards[j], key) == t
}

proof fn lemma_most(cards: Seq<Json>, key: Seq<char>, k: int)
    requires
        0 <= k <= cards.len(),
    ensures
        is_peak(most(cards, key, k), cards.take(k), key),
    decreases k,
{
    crate::double::lemma_whole_exact(0);
    if k > 0 {
        lemma_most(cards, key, k - 1);
        let m = most(cards, key, k - 1);
        let t = most(cards, key, k);
        let x = number_at(cards[k - 1], key);
        assert(t == larger(m, x));
        let a = cards.take(k - 1);
        let b = cards.take(k);
        assert forall|j: int| 0 <= j < b.len() implies !less(t, number_at(#[trigger] b[j], key)) by {
            if j < k - 1 {
                assert(a[j] == b[j]);
                assert(!less(m, number_at(a[j], key)));
            }
        }
        if t != whole(0) {
            if t == x && less(m, x) {
                assert(number_at(b[k - 1], key) == t);
            } else {
                let j = choose|j: int| 0 <= j < a.len() && number_at(#[trigger] a[j], key) == m;
                assert(b[j] == a[j]);
            }
        }
    }
}

/// The law of the hottest card: no card of a server that counts is hotter, and it is a card of
/// the server that is named, unless none is above zero.
#[verifier::rlimit(40)]
pub proof fn lemma_hottest(servers: Seq<Json>, k: int)
    requires
        0 <= k <= servers.len(),
    ensures
        match digest_after(servers, k).hottest {
            Some((n, t)) => {
                &&& exists|i: int|
                    0 <= i < k && counts(#[trigger] servers[i]) && text_at(
                        servers[i],
                        "name"@,
                        "?"@,
                    ) == n && is_peak(t, listed_cards(servers[i]), "temp"@)
                &&& forall|i: int, j: int|
                    0 <= i < k && counts(servers[i]) && 0 <= j < listed_cards(servers[i]).len()
                        ==> !less(
                        t,
                        number_at(#[trigger] listed_cards(servers[i])[j], "temp"@),
                    )
            },
            None => forall|i: int| 0 <= i < k ==> !counts(#[trigger] servers[i]),
        },
    decreases k,
{
    if k > 0 {
        lemma_hottest(servers, k - 1);
        let s = servers[k - 1];
        lemma_says(s);
        let d = digest_after(servers, k - 1);
        let e = digest_after(servers, k);
        if counts(s) {
            let cards = listed_cards(s);
            let f = facts_of(s, cards);
            lemma_most(cards, "temp"@, cards.len() as int);
            assert(cards.take(cards.len() as int) =~= cards);
            assert(is_peak(f.temp, cards, "temp"@));
            let t = (e.hottest->0).1;
            assert forall|i: int, j: int|
                0 <= i < k && counts(servers[i]) && 0 <= j < listed_cards(servers[i]).len()
                implies !less(t, number_at(#[trigger] listed_cards(servers[i])[j], "temp"@)) by {
                if i == k - 1 {
                    assert(!less(f.temp, number_at(cards[j], "temp"@)));
                } else {
                    assert(counts(servers[i]));
                    assert(d.hottest is Some);
                }
            }
            if e.hottest == Some((f.name, f.temp)) {
                assert(counts(servers[k - 1]));
            }
        } else {
            assert(e.hottest == d.hottest);
            if e.hottest is Some {
                let t = (e.hottest->0).1;
                assert forall|i: int, j: int|
                    0 <= i < k && counts(servers[i]) && 0 <= j < listed_cards(servers[i]).len()
                    implies !less(
                    t,
                    number_at(#[trigger] listed_cards(servers[i])[j], "temp"@),
                ) by {
                    assert(i < k - 1);
                }
            }
        }
    }
}

/// Adds what a card may draw.
pub open spec fn add_limit() -> spec_fn(Double, Json) -> Double {
    |w: Double, g: Json| sum(w, number_at(g, "power_limit"@))
}

/// What the cards of a server may draw together.
pub open spec fn limit_of(cards: Seq<Json>) -> Double {
    cards.fold_left(no_sum(), add_limit())
}

proof fn lemma_limit(cards: Seq<Json>, k: int)
    requires
        0 <= k <= cards.len(),
    ensures
        sum_over(cards, "power_limit"@, k) == limit_of(cards.take(k)),
    decreases k,
{
    if k > 0 {
        lemma_limit(cards, k - 1);
        assert(cards.take(k).drop_last() =~= cards.take(k - 1));
    } else {
        assert(cards.take(0).len() == 0);
    }
}

/// The law of the server that draws most: no server that counts draws more, and the limit is what
/// its cards may draw together.
pub proof fn lemma_thirstiest(servers: Seq<Json>, k: int)
    requires
        0 <= k <= servers.len(),
    ensures
        match digest_after(servers, k).thirstiest {
            Some((n, w, cap)) => {
                &&& exists|i: int|
                    0 <= i < k && counts(#[trigger] servers[i]) && text_at(
                        servers[i],
                        "name"@,
                        "?"@,
                    ) == n && w == number_at(servers[i], "watts"@) && cap == limit_of(
                        listed_cards(servers[i]),
                    )
                &&& forall|i: int|
                    0 <= i < k && counts(#[trigger] servers[i]) ==> !less(
                        w,
                        number_at(servers[i], "watts"@),
                    )
            },
            None => forall|i: int| 0 <= i < k ==> !counts(#[trigger] servers[i]),
        },
    decreases k,
{
    if k > 0 {
        lemma_thirstiest(servers, k - 1);
        let s = servers[k - 1];
        lemma_says(s);
        if counts(s) {
            let cards = listed_cards(s);
            lemma_limit(cards, cards.len() as int);
            assert(cards.take(cards.len() as int) =~= cards);
            assert(counts(servers[k - 1]));
        }
    }
}

// ---------------------------------------------------------------- totals

/// Those servers that count.
pub open spec fn that_count() -> spec_fn(Json) -> bool {
    |s: Json| counts(s)
}

/// Those servers that do not respond.
pub open spec fn that_are_down() -> spec_fn(Json) -> bool {
    |s: Json| !answers(s)
}

/// Those cards that work.
pub open spec fn that_work() -> spec_fn(Json) -> bool {
    |g: Json| card_works(g)
}

/// The cards of servers that count, each by the server and its place there.
pub open spec fn card_places(servers: Seq<Json>, working: bool) -> Set<(int, int)> {
    Set::new(
        |p: (int, int)|
            0 <= p.0 < servers.len() && counts(servers[p.0]) && 0 <= p.1 < listed_cards(
                servers[p.0],
            ).len() && (working ==> card_works(listed_cards(servers[p.0])[p.1])),
    )
}

spec fn card_places_to(servers: Seq<Json>, working: bool, n: int, m: int) -> Set<(int, int)> {
    Set::new(
        |p: (int, int)|
            card_places(servers, working).contains(p) && (p.0 < n || (p.0 == n && p.1 < m)),
    )
}

proof fn lemma_card_works(g: Json)
    ensures
        card_busy(g) == card_works(g),
{
    lemma_reaches(number_at(g, "util"@), 5);
    lemma_reaches(number_at(g, "mem_used"@), 512);
}

proof fn lemma_cards_to(servers: Seq<Json>, working: bool, n: int, m: int)
    requires
        0 <= n < servers.len(),
        counts(servers[n]),
        0 <= m <= listed_cards(servers[n]).len(),
        card_places_to(servers, working, n, 0).finite(),
    ensures
        card_places_to(servers, working, n, m).finite(),
        card_places_to(servers, working, n, m).len() == card_places_to(servers, working, n, 0).len()
            + if working {
            busy_cards(listed_cards(servers[n]), m)
        } else {
            m as nat
        },
    decreases m,
{
    if m > 0 {
        lemma_cards_to(servers, working, n, m - 1);
        let g = listed_cards(servers[n])[m - 1];
        lemma_card_works(g);
        let a = card_places_to(servers, working, n, m - 1);
        let b = card_places_to(servers, working, n, m);
        if working ==> card_works(g) {
            assert(b =~= a.insert((n, m - 1)));
            assert(!a.contains((n, m - 1)));
        } else {
            assert(b =~= a);
        }
    }
}

proof fn lemma_totals_to(servers: Seq<Json>, working: bool, k: int)
    requires
        0 <= k <= servers.len(),
    ensures
        card_places_to(servers, working, k, 0).finite(),
        card_places_to(servers, working, k, 0).len() == if working {
            digest_after(servers, k).busy
        } else {
            digest_after(servers, k).total
        },
    decreases k,
{
    let b = card_places_to(servers, working, k, 0);
    if k == 0 {
        assert(b =~= Set::empty());
    } else {
        lemma_totals_to(servers, working, k - 1);
        let s = servers[k - 1];
        lemma_says(s);
        if counts(s) {
            let n = listed_cards(s).len() as int;
            lemma_cards_to(servers, working, k - 1, n);
            assert(b =~= card_places_to(servers, working, k - 1, n));
        } else {
            assert(b =~= card_places_to(servers, working, k - 1, 0));
        }
    }
}

/// The law of the totals: the cards are those of the servers that count, the busy ones those of
/// them that work, and the power is what these servers draw, in their order.
pub proof fn lemma_totals(servers: Seq<Json>)
    ensures
        ({
            let d = digest_after(servers, servers.len() as int);
            &&& card_places(servers, false).finite()
            &&& card_places(servers, true).finite()
            &&& d.total == card_places(servers, false).len()
            &&& d.busy == card_places(servers, true).len()
            &&& d.watts == servers.filter(that_count()).fold_left(whole(0), add_draw())
        }),
{
    let n = servers.len() as int;
    lemma_totals_to(servers, true, n);
    lemma_totals_to(servers, false, n);
    assert(card_places(servers, true) =~= card_places_to(servers, true, n, 0));
    assert(card_places(servers, false) =~= card_places_to(servers, false, n, 0));
    lemma_draws(servers, n);
    assert(servers.take(n) =~= servers);
}

proof fn lemma_draws(servers: Seq<Json>, k: int)
    requires
        0 <= k <= servers.len(),
    ensures
        digest_after(servers, k).watts == servers.take(k).filter(that_count()).fold_left(
            whole(0),
            add_draw(),
        ),
    decreases k,
{
    reveal(Seq::filter);
    if k > 0 {
        lemma_draws(servers, k - 1);
        lemma_says(servers[k - 1]);
        assert(servers.take(k).drop_last() =~= servers.take(k - 1));
        let before = servers.take(k - 1).filter(that_count());
        let there = servers.take(k).filter(that_count());
        if counts(servers[k - 1]) {
            assert(there == before.push(servers[k - 1]));
            assert(there.drop_last() =~= before);
        } else {
            assert(there == before);
        }
    } else {
        assert(servers.take(0).filter(that_count()).len() == 0);
    }
}

/// The power at a snapshot is what the servers that respond draw, in their order.
pub proof fn lemma_watts(servers: Seq<Json>, k: int)
    requires
        0 <= k <= servers.len(),
    ensures
        watts_over(servers, k) == servers.take(k).filter(|s: Json| answers(s)).fold_left(
            no_sum(),
            add_draw(),
        ),
    decreases k,
{
    reveal(Seq::filter);
    let up = |s: Json| answers(s);
    if k > 0 {
        lemma_watts(servers, k - 1);
        lemma_says(servers[k - 1]);
        assert(servers.take(k).drop_last() =~= servers.take(k - 1));
        let before = servers.take(k - 1).filter(up);
        let there = servers.take(k).filter(up);
        if answers(servers[k - 1]) {
            assert(there == before.push(servers[k - 1]));
            assert(there.drop_last() =~= before);
        } else {
            assert(there == before);
        }
    } else {
        assert(servers.take(0).filter(up).len() == 0);
    }
}

// ---------------------------------------------------------------- lines on servers

proof fn lemma_busy_filter(cards: Seq<Json>, k: int)
    requires
        0 <= k <= cards.len(),
    ensures
        busy_cards(cards, k) == cards.take(k).filter(that_work()).len(),
    decreases k,
{
    reveal(Seq::filter);
    if k > 0 {
        lemma_busy_filter(cards, k - 1);
        lemma_card_works(cards[k - 1]);
        assert(cards.take(k).drop_last() =~= cards.take(k - 1));
    } else {
        assert(cards.take(0).len() == 0);
    }
}

/// The law of the line on a server: its name and model, how many of its cards work, how many it
/// lists, what it draws, the peak of their temperatures, and where it stands.
#[verifier::rlimit(60)]
pub proof fn lemma_server_line(s: Json) -> (peak: Double)
    requires
        counts(s),
    ensures
        is_peak(peak, listed_cards(s), "temp"@),
        line_of(facts_of(s, listed_cards(s))) == text_at(s, "name"@, "?"@) + " ("@ + text_at(
            s,
            "gpu_model"@,
            ""@,
        ) + "): GPU "@ + numeral(listed_cards(s).filter(that_work()).len()) + "/"@ + numeral(
            listed_cards(s).len(),
        ) + " 사용중, "@ + rounded_text(number_at(s, "watts"@)) + " W, 최고 "@ + rounded_text(peak)
            + "도, 랙 "@ + text_at(s, "loc"@, ""@),
{
    let cards = listed_cards(s);
    lemma_says(s);
    lemma_busy_filter(cards, cards.len() as int);
    lemma_most(cards, "temp"@, cards.len() as int);
    assert(cards.take(cards.len() as int) =~= cards);
    most(cards, "temp"@, cards.len() as int)
}

/// The line on a server.
pub open spec fn line_for() -> spec_fn(Json) -> Seq<char> {
    |s: Json| line_of(facts_of(s, listed_cards(s)))
}

/// The name of a server.
pub open spec fn name_for() -> spec_fn(Json) -> Seq<char> {
    |s: Json| text_at(s, "name"@, "?"@)
}

/// The law of the lists: every server that counts has its line, every one that does not respond
/// is named, both in the order of the servers.
pub proof fn lemma_lists(servers: Seq<Json>, k: int)
    requires
        0 <= k <= servers.len(),
    ensures
        digest_after(servers, k).lines == servers.take(k).filter(that_count()).map_values(
            line_for(),
        ),
        digest_after(servers, k).down == servers.take(k).filter(that_are_down()).map_values(
            name_for(),
        ),
    decreases k,
{
    reveal(Seq::filter);
    let up = servers.take(k).filter(that_count());
    let down = servers.take(k).filter(that_are_down());
    let d = digest_after(servers, k);
    if k > 0 {
        lemma_lists(servers, k - 1);
        let s = servers[k - 1];
        lemma_says(s);
        assert(servers.take(k).drop_last() =~= servers.take(k - 1));
        let up0 = servers.take(k - 1).filter(that_count());
        let down0 = servers.take(k - 1).filter(that_are_down());
        if counts(s) {
            assert(up == up0.push(s));
            assert(up.map_values(line_for()) =~= up0.map_values(line_for()).push(line_for()(s)));
        }
        if !answers(s) {
            assert(down == down0.push(s));
            assert(down.map_values(name_for()) =~= down0.map_values(name_for()).push(
                name_for()(s),
            ));
        }
    } else {
        assert(up.map_values(line_for()) =~= d.lines);
        assert(down.map_values(name_for()) =~= d.down);
    }
}

// ---------------------------------------------------------------- anomalies

/// Whether one of the cards has at least `k` of a quantity.
pub open spec fn some_reaches(cards: Seq<Json>, key: Seq<char>, k: int) -> bool {
    exists|j: int| 0 <= j < cards.len() && reaches(number_at(#[trigger] cards[j], key), k)
}

proof fn lemma_peak_reaches(t: Double, cards: Seq<Json>, key: Seq<char>, k: nat)
    requires
        is_peak(t, cards, key),
        0 < k < 0x20_0000_0000_0000,
    ensures
        at_most(whole(k as int), t) == some_reaches(cards, key, k as int),
{
    lemma_reaches(t, k);
    lemma_reaches(whole(0), k);
    crate::double::lemma_whole_exact(0);
    crate::double::lemma_whole_exact(k);
    vstd::arithmetic::power2::lemma_pow2_pos(1074);
    assert(!reaches(whole(0), k as int)) by {
        let u = crate::double::one() as int;
        assert(0 * u == 0) by (nonlinear_arith);
        assert(k * u > 0) by (nonlinear_arith)
            requires
                k > 0,
                u > 0,
        ;
    }
    if at_most(whole(k as int), t) {
        let j = choose|j: int| 0 <= j < cards.len() && number_at(#[trigger] cards[j], key) == t;
        assert(reaches(number_at(cards[j], key), k as int));
    }
    if some_reaches(cards, key, k as int) {
        let j = choose|j: int|
            0 <= j < cards.len() && reaches(number_at(#[trigger] cards[j], key), k as int);
        lemma_reaches(number_at(cards[j], key), k);
        assert(!less(t, number_at(cards[j], key)));
    }
}

/// Whether a server draws at least 95 percent of what its cards may draw.
pub open spec fn is_near_limit(s: Json) -> bool {
    let cap = limit_of(listed_cards(s));
    exceeds(cap, 0) && at_most(dec(95, -2), quotient(number_at(s, "watts"@), cap))
}

/// The law of the anomalies of a server: a line on its heat just where one of its cards has 85
/// degrees or more, with the peak, and a line on its power just where it is near its limit.
#[verifier::rlimit(60)]
pub proof fn lemma_anomalies(s: Json) -> (peak: Double)
    requires
        counts(s),
    ensures
        is_peak(peak, listed_cards(s), "temp"@),
        ({
            let cap = limit_of(listed_cards(s));
            let watts = number_at(s, "watts"@);
            let name = text_at(s, "name"@, "?"@);
            alerts_of(facts_of(s, listed_cards(s))) == (if some_reaches(
                listed_cards(s),
                "temp"@,
                85,
            ) {
                seq![
                    name + ": GPU 온도 "@ + rounded_text(peak) + "도 (임계 "@ + numeral(85)
                        + "도)"@,
                ]
            } else {
                seq![]
            }) + if is_near_limit(s) {
                seq![
                    name + ": 전력 "@ + rounded_text(watts) + " W, 제한 "@ + rounded_text(cap)
                        + " W의 "@ + rounded_text(product(quotient(watts, cap), whole(100)))
                        + "% (전력 상한 근접)"@,
                ]
            } else {
                seq![]
            }
        }),
{
    let cards = listed_cards(s);
    lemma_says(s);
    lemma_most(cards, "temp"@, cards.len() as int);
    lemma_limit(cards, cards.len() as int);
    assert(cards.take(cards.len() as int) =~= cards);
    let t = most(cards, "temp"@, cards.len() as int);
    lemma_peak_reaches(t, cards, "temp"@, 85);
    lemma_reaches(limit_of(cards), 0);
    t
}

/// The share of its memory that a card has in use.
pub open spec fn share_of(g: Json) -> Double {
    quotient(number_at(g, "mem_used"@), number_at(g, "mem_total"@))
}

/// Whether `t` is the largest share of its memory that a card has in use, of those that say how
/// much they have; zero where none does.
pub open spec fn is_fullest(t: Double, cards: Seq<Json>) -> bool {
    &&& !t.nan()
    &&& !less(t, whole(0))
    &&& forall|j: int|
        0 <= j < cards.len() && exceeds(number_at(#[trigger] cards[j], "mem_total"@), 0) ==> !less(
            t,
            share_of(cards[j]),
        )
    &&& t == whole(0) || exists|j: int|
        0 <= j < cards.len() && exceeds(number_at(#[trigger] cards[j], "mem_total"@), 0)
            && share_of(cards[j]) == t
}

#[verifier::rlimit(40)]
proof fn lemma_fullest(cards: Seq<Json>, k: int)
    requires
        0 <= k <= cards.len(),
    ensures
        is_fullest(fullest(cards, k), cards.take(k)),
    decreases k,
{
    crate::double::lemma_whole_exact(0);
    if k > 0 {
        lemma_fullest(cards, k - 1);
        let m = fullest(cards, k - 1);
        let t = fullest(cards, k);
        let g = cards[k - 1];
        lemma_reaches(number_at(g, "mem_total"@), 0);
        let a = cards.take(k - 1);
        let b = cards.take(k);
        let has = exceeds(number_at(g, "mem_total"@), 0);
        assert(has ==> member(g, "mem_total"@) is Some && member(g, "mem_total"@)->0 is Num) by {
            lemma_reaches(whole(0), 0);
        }
        let x = share_of(g);
        assert(t == if has {
            larger(m, x)
        } else {
            m
        });
        assert forall|j: int|
            0 <= j < b.len() && exceeds(number_at(#[trigger] b[j], "mem_total"@), 0) implies !less(
            t,
            share_of(b[j]),
        ) by {
            if j < k - 1 {
                assert(a[j] == b[j]);
                assert(!less(m, share_of(a[j])));
            }
        }
        if t != whole(0) {
            if has && less(m, x) {
                assert(share_of(b[k - 1]) == t);
            } else {
                let j = choose|j: int|
                    0 <= j < a.len() && exceeds(number_at(#[trigger] a[j], "mem_total"@), 0)
                        && share_of(a[j]) == m;
                assert(b[j] == a[j]);
            }
        }
    }
}

/// The law of the further lines on a server: on its memory where the largest share in use is 92
/// percent or more, on its fans where one is open to 95 percent or more, and on its start where
/// that was within a day.
#[verifier::rlimit(60)]
pub proof fn lemma_notices(s: Json) -> (r: (Double, Double))
    requires
        counts(s),
    ensures
        is_fullest(r.0, listed_cards(s)),
        is_peak(r.1, listed_cards(s), "fan"@),
        ({
            let name = text_at(s, "name"@, "?"@);
            let up = number_at(s, "uptime_sec"@);
            let f = facts_of(s, listed_cards(s));
            &&& vram_of(f) == if at_most(dec(92, -2), r.0) {
                seq![name + " "@ + rounded_text(product(r.0, whole(100))) + "%"@]
            } else {
                seq![]
            }
            &&& fans_of(f) == if some_reaches(listed_cards(s), "fan"@, 95) {
                seq![
                    name + " "@ + rounded_text(
                        if exceeds(r.1, 100) {
                            whole(100)
                        } else {
                            r.1
                        },
                    ) + "%"@,
                ]
            } else {
                seq![]
            }
            &&& reboot_of(f) == if exceeds(up, 0) && !reaches(up, 86_400) {
                seq![name + " "@ + rounded_text(quotient(up, whole(3600))) + "시간"@]
            } else {
                seq![]
            }
        }),
{
    let cards = listed_cards(s);
    let n = cards.len() as int;
    lemma_says(s);
    lemma_most(cards, "fan"@, n);
    lemma_fullest(cards, n);
    assert(cards.take(n) =~= cards);
    let fan = most(cards, "fan"@, n);
    lemma_peak_reaches(fan, cards, "fan"@, 95);
    lemma_reaches(fan, 100);
    lemma_reaches(number_at(s, "uptime_sec"@), 0);
    lemma_reaches(number_at(s, "uptime_sec"@), 86_400);
    crate::double::lemma_whole_exact(86_400);
    (fullest(cards, n), fan)
}

// ---------------------------------------------------------------- the briefing

/// Whether a text has a line in it.
pub open spec fn tells(t: Seq<char>, line: Seq<char>) -> bool {
    exists|a: Seq<char>, b: Seq<char>| t == #[trigger] (a + line + b)
}

proof fn lemma_tells(t: Seq<char>, a: Seq<char>, line: Seq<char>, b: Seq<char>)
    requires
        t == a + line + b,
    ensures
        tells(t, line),
{
}

proof fn lemma_tells_within(t: Seq<char>, u: Seq<char>, line: Seq<char>)
    requires
        tells(t, u),
        tells(u, line),
    ensures
        tells(t, line),
{
    let (a, b) = choose|a: Seq<char>, b: Seq<char>| t == #[trigger] (a + u + b);
    let (c, d) = choose|c: Seq<char>, d: Seq<char>| u == #[trigger] (c + line + d);
    assert(t =~= (a + c) + line + (d + b));
}

proof fn lemma_tells_joined(ts: Seq<Seq<char>>, sep: Seq<char>, i: int)
    requires
        0 <= i < ts.len(),
    ensures
        tells(joined(ts, sep), ts[i]),
    decreases ts.len(),
{
    let t = joined(ts, sep);
    let e = Seq::<char>::empty();
    if ts.len() == 1 {
        assert(t =~= e + ts[0] + e);
    } else if i == ts.len() - 1 {
        assert(t =~= (joined(ts.drop_last(), sep) + sep) + ts[i] + e);
    } else {
        let u = joined(ts.drop_last(), sep);
        lemma_tells_joined(ts.drop_last(), sep, i);
        assert(ts.drop_last()[i] == ts[i]);
        assert(t =~= e + u + (sep + ts.last()));
        lemma_tells(t, e, u, sep + ts.last());
        lemma_tells_within(t, u, ts[i]);
    }
}

proof fn lemma_tells_alert(alerts: Seq<Seq<char>>, k: int, i: int)
    requires
        0 <= i < k <= alerts.len(),
    ensures
        tells(crate::summary::alert_lines(alerts, k), "- "@ + alerts[i] + "\n"@),
    decreases k,
{
    let t = crate::summary::alert_lines(alerts, k);
    let u = crate::summary::alert_lines(alerts, k - 1);
    let e = Seq::<char>::empty();
    if i == k - 1 {
        assert(t =~= u + ("- "@ + alerts[i] + "\n"@) + e);
    } else {
        lemma_tells_alert(alerts, k - 1, i);
        assert(t =~= e + u + ("- "@ + alerts[k - 1] + "\n"@));
        lemma_tells(t, e, u, "- "@ + alerts[k - 1] + "\n"@);
        lemma_tells_within(t, u, "- "@ + alerts[i] + "\n"@);
    }
}

/// There is a briefing just where the snapshot can be read and names a server that counts or one
/// that does not respond.
#[verifier::rlimit(40)]
pub proof fn lemma_briefed(snapshot: Seq<char>, trend: Option<(Double, u32)>)
    ensures
        digest_of(snapshot, trend) is Some <==> (servers_of(snapshot) matches Some(a) && exists|
            i: int,
        |
            0 <= i < a.len() && (counts(#[trigger] a[i]) || !answers(a[i]))),
{
    if let Some(a) = servers_of(snapshot) {
        let n = a.len() as int;
        lemma_lists(a, n);
        assert(a.take(n) =~= a);
        let d = digest_after(a, n);
        let up = a.filter(that_count());
        let down = a.filter(that_are_down());
        a.filter_lemma(that_count());
        a.filter_lemma(that_are_down());
        if up.len() > 0 {
            assert(that_count()(up[0]));
            lemma_filtered(a, that_count(), 0);
        }
        if down.len() > 0 {
            assert(that_are_down()(down[0]));
            lemma_filtered(a, that_are_down(), 0);
        }
        if exists|i: int| 0 <= i < a.len() && (counts(#[trigger] a[i]) || !answers(a[i])) {
            let i = choose|i: int|
                0 <= i < a.len() && (counts(#[trigger] a[i]) || !answers(a[i]));
            if counts(a[i]) {
                assert(that_count()(a[i]));
                assert(up.contains(a[i]));
            } else {
                assert(that_are_down()(a[i]));
                assert(down.contains(a[i]));
            }
        }
    }
}

proof fn lemma_filtered(a: Seq<Json>, p: spec_fn(Json) -> bool, i: int)
    requires
        0 <= i < a.filter(p).len(),
    ensures
        exists|j: int| 0 <= j < a.len() && #[trigger] a[j] == a.filter(p)[i],
    decreases a.len(),
{
    reveal(Seq::filter);
    let init = a.drop_last();
    if i < init.filter(p).len() {
        lemma_filtered(init, p, i);
        let j = choose|j: int| 0 <= j < init.len() && #[trigger] init[j] == init.filter(p)[i];
        assert(a[j] == init[j]);
    } else {
        assert(a[a.len() - 1] == a.filter(p)[i]);
    }
}

#[verifier::rlimit(40)]
proof fn lemma_parts(
    p0: Seq<char>,
    p1: Seq<char>,
    p2: Seq<char>,
    p3: Seq<char>,
    p4: Seq<char>,
    p5: Seq<char>,
    p6: Seq<char>,
    p7: Seq<char>,
    p8: Seq<char>,
    p9: Seq<char>,
    p10: Seq<char>,
    p11: Seq<char>,
    p12: Seq<char>,
)
    ensures
        ({
            let t = p0 + p1 + p2 + p3 + p4 + p5 + p6 + p7 + p8 + p9 + p10 + p11 + p12;
            &&& tells(t, p1)
            &&& tells(t, p3)
            &&& tells(t, p4)
            &&& tells(t, p5)
            &&& tells(t, p6)
            &&& tells(t, p7)
            &&& tells(t, p8)
            &&& tells(t, p9)
            &&& tells(t, p10)
            &&& tells(t, p12)
        }),
{
    let t = p0 + p1 + p2 + p3 + p4 + p5 + p6 + p7 + p8 + p9 + p10 + p11 + p12;
    assert(tells(t, p1)) by {
        let a = p0;
        let b = p2 + p3 + p4 + p5 + p6 + p7 + p8 + p9 + p10 + p11 + p12;
        assert(t =~= a + p1 + b);
    }
    assert(tells(t, p3)) by {
        let a = p0 + p1 + p2;
        let b = p4 + p5 + p6 + p7 + p8 + p9 + p10 + p11 + p12;
        assert(t =~= a + p3 + b);
    }
    assert(tells(t, p4)) by {
        let a = p0 + p1 + p2 + p3;
        let b = p5 + p6 + p7 + p8 + p9 + p10 + p11 + p12;
        assert(t =~= a + p4 + b);
    }
    assert(tells(t, p5)) by {
        let a = p0 + p1 + p2 + p3 + p4;
        let b = p6 + p7 + p8 + p9 + p10 + p11 + p12;
        assert(t =~= a + p5 + b);
    }
    assert(tells(t, p6)) by {
        let a = p0 + p1 + p2 + p3 + p4 + p5;
        let b = p7 + p8 + p9 + p10 + p11 + p12;
        assert(t =~= a + p6 + b);
    }
    assert(tells(t, p7)) by {
        let a = p0 + p1 + p2 + p3 + p4 + p5 + p6;
        let b = p8 + p9 + p10 + p11 + p12;
        assert(t =~= a + p7 + b);
    }
    assert(tells(t, p8)) by {
        let a = p0 + p1 + p2 + p3 + p4 + p5 + p6 + p7;
        let b = p9 + p10 + p11 + p12;
        assert(t =~= a + p8 + b);
    }
    assert(tells(t, p9)) by {
        let a = p0 + p1 + p2 + p3 + p4 + p5 + p6 + p7 + p8;
        let b = p10 + p11 + p12;
        assert(t =~= a + p9 + b);
    }
    assert(tells(t, p10)) by {
        let a = p0 + p1 + p2 + p3 + p4 + p5 + p6 + p7 + p8 + p9;
        let b = p11 + p12;
        assert(t =~= a + p10 + b);
    }
    assert(tells(t, p12)) by {
        let a = p0 + p1 + p2 + p3 + p4 + p5 + p6 + p7 + p8 + p9 + p10 + p11;
        let b = Seq::<char>::empty();
        assert(t =~= a + p12 + b);
    }
}

/// The parts of a briefing are told in it.
#[verifier::rlimit(60)]
proof fn lemma_briefing_parts(d: Digest, trend: Option<(Double, u32)>)
    ensures
        ({
            let t = briefing(d, trend);
            let alerts = all_alerts(d);
            &&& tells(t, crate::summary::alert_lines(alerts, alerts.len() as int))
            &&& tells(t, thirst_text(d.thirstiest))
            &&& tells(t, heat_text(d.hottest))
            &&& tells(t, room_text(d.rooms))
            &&& tells(t, crate::summary::vram_text(d.vram))
            &&& tells(t, crate::summary::fans_text(d.fans))
            &&& tells(t, crate::summary::reboot_text(d.rebooted))
            &&& tells(t, crate::summary::trend_text(trend, d.watts))
            &&& tells(t, totals_text(d))
            &&& tells(t, joined(d.lines, "\n"@))
        }),
{
    let alerts = all_alerts(d);
    lemma_parts(
        crate::summary::verdict(alerts.len()),
        crate::summary::alert_lines(alerts, alerts.len() as int),
        "관측:\n"@,
        thirst_text(d.thirstiest),
        heat_text(d.hottest),
        room_text(d.rooms),
        crate::summary::vram_text(d.vram),
        crate::summary::fans_text(d.fans),
        crate::summary::reboot_text(d.rebooted),
        crate::summary::trend_text(trend, d.watts),
        totals_text(d),
        "\n서버별:\n"@,
        joined(d.lines, "\n"@),
    );
}

/// The law of the briefing on anomalies: it tells every one, and every server that does not
/// respond.
pub proof fn lemma_tells_anomalies(d: Digest, trend: Option<(Double, u32)>)
    ensures
        ({
            let t = briefing(d, trend);
            &&& forall|i: int|
                0 <= i < d.alerts.len() ==> tells(t, "- "@ + #[trigger] d.alerts[i] + "\n"@)
            &&& forall|i: int|
                0 <= i < d.down.len() ==> tells(
                    t,
                    "- "@ + (#[trigger] d.down[i] + ": 응답 없음"@) + "\n"@,
                )
        }),
{
    let t = briefing(d, trend);
    let alerts = all_alerts(d);
    let p = crate::summary::alert_lines(alerts, alerts.len() as int);
    lemma_briefing_parts(d, trend);
    assert forall|i: int| 0 <= i < d.alerts.len() implies tells(
        t,
        "- "@ + #[trigger] d.alerts[i] + "\n"@,
    ) by {
        assert(alerts[i] == d.alerts[i]);
        lemma_tells_alert(alerts, alerts.len() as int, i);
        lemma_tells_within(t, p, "- "@ + d.alerts[i] + "\n"@);
    }
    assert forall|i: int| 0 <= i < d.down.len() implies tells(
        t,
        "- "@ + (#[trigger] d.down[i] + ": 응답 없음"@) + "\n"@,
    ) by {
        let j = d.alerts.len() + i;
        assert(alerts[j] == d.down[i] + ": 응답 없음"@);
        lemma_tells_alert(alerts, alerts.len() as int, j);
        lemma_tells_within(t, p, "- "@ + alerts[j] + "\n"@);
    }
}

/// The law of the briefing on what stands out: the server that draws most, the hottest card, and
/// the room that draws most.
#[verifier::rlimit(60)]
pub proof fn lemma_tells_peaks(d: Digest, trend: Option<(Double, u32)>)
    ensures
        d.thirstiest matches Some((n, w, cap)) ==> tells(
            briefing(d, trend),
            "- 서버 중에서는 "@ + n + "이 "@ + rounded_text(w)
                + " W로 전력을 가장 많이 쓰는 중"@,
        ),
        d.hottest matches Some((n, h)) ==> tells(
            briefing(d, trend),
            "- 가장 뜨거운 카드는 "@ + n + "의 "@ + rounded_text(h) + "도 (경고 임계 "@
                + numeral(85) + "도)\n"@,
        ),
        tells(briefing(d, trend), room_text(d.rooms)),
{
    let t = briefing(d, trend);
    lemma_briefing_parts(d, trend);
    if let Some((n, w, cap)) = d.thirstiest {
        let p = thirst_text(d.thirstiest);
        let l = "- 서버 중에서는 "@ + n + "이 "@ + rounded_text(w)
            + " W로 전력을 가장 많이 쓰는 중"@;
        let e = Seq::<char>::empty();
        let rest = crate::summary::share_text(w, cap) + "\n"@;
        assert(p =~= e + l + rest);
        lemma_tells(p, e, l, rest);
        lemma_tells_within(t, p, l);
    }
}

/// The law of the briefing on the rest: every notice, the change since the last briefing, the
/// totals, and every server that counts.
#[verifier::rlimit(40)]
pub proof fn lemma_tells_rest(d: Digest, trend: Option<(Double, u32)>)
    ensures
        ({
            let t = briefing(d, trend);
            &&& forall|i: int| 0 <= i < d.vram.len() ==> tells(t, #[trigger] d.vram[i])
            &&& forall|i: int| 0 <= i < d.fans.len() ==> tells(t, #[trigger] d.fans[i])
            &&& forall|i: int| 0 <= i < d.rebooted.len() ==> tells(t, #[trigger] d.rebooted[i])
            &&& trend matches Some((prev, mins)) ==> tells(
                t,
                numeral(mins as nat) + "분 전)과 비교하면 전력이 "@ + rounded_text(prev)
                    + " W에서 "@ + rounded_text(d.watts) + " W로 "@,
            )
            &&& tells(
                t,
                "- 전체 규모: GPU "@ + numeral(d.total) + "대 중 "@ + numeral(d.busy)
                    + "대 사용 중, 서버 "@ + numeral(d.lines.len() + d.down.len()) + "대 중 "@
                    + numeral(d.lines.len()) + "대 응답, 총 "@ + rounded_text(d.watts) + " W\n"@,
            )
            &&& forall|i: int| 0 <= i < d.lines.len() ==> tells(t, #[trigger] d.lines[i])
        }),
{
    let t = briefing(d, trend);
    lemma_briefing_parts(d, trend);
    assert forall|i: int| 0 <= i < d.vram.len() implies tells(t, #[trigger] d.vram[i]) by {
        let p = crate::summary::vram_text(d.vram);
        let list = joined(d.vram, ", "@);
        let h = "- VRAM이 "@ + rounded_text(product(dec(92, -2), whole(100)))
            + "% 이상 차서 추가 할당 시 OOM 위험: "@;
        lemma_tells(p, h, list, "\n"@);
        lemma_tells_within(t, p, list);
        lemma_tells_joined(d.vram, ", "@, i);
        lemma_tells_within(t, list, d.vram[i]);
    }
    assert forall|i: int| 0 <= i < d.fans.len() implies tells(t, #[trigger] d.fans[i]) by {
        let p = crate::summary::fans_text(d.fans);
        let list = joined(d.fans, ", "@);
        let h = "- 팬이 "@ + numeral(95) + "% 이상으로 냉각 여력이 없음: "@;
        lemma_tells(p, h, list, "\n"@);
        lemma_tells_within(t, p, list);
        lemma_tells_joined(d.fans, ", "@, i);
        lemma_tells_within(t, list, d.fans[i]);
    }
    assert forall|i: int| 0 <= i < d.rebooted.len() implies tells(t, #[trigger] d.rebooted[i]) by {
        let p = crate::summary::reboot_text(d.rebooted);
        let list = joined(d.rebooted, ", "@);
        let h = "- 24시간 안에 재부팅되어 실행 중이던 작업이 끊겼을 수 있음: "@;
        lemma_tells(p, h, list, "\n"@);
        lemma_tells_within(t, p, list);
        lemma_tells_joined(d.rebooted, ", "@, i);
        lemma_tells_within(t, list, d.rebooted[i]);
    }
    if let Some((prev, mins)) = trend {
        lemma_change(prev, mins, d.watts);
        lemma_tells_within(
            t,
            crate::summary::trend_text(trend, d.watts),
            numeral(mins as nat) + "분 전)과 비교하면 전력이 "@ + rounded_text(prev) + " W에서 "@
                + rounded_text(d.watts) + " W로 "@,
        );
    }
    assert forall|i: int| 0 <= i < d.lines.len() implies tells(t, #[trigger] d.lines[i]) by {
        lemma_tells_joined(d.lines, "\n"@, i);
        lemma_tells_within(t, joined(d.lines, "\n"@), d.lines[i]);
    }
}

proof fn lemma_change(prev: Double, mins: u32, watts: Double)
    ensures
        tells(
            crate::summary::trend_text(Some((prev, mins)), watts),
            numeral(mins as nat) + "분 전)과 비교하면 전력이 "@ + rounded_text(prev) + " W에서 "@
                + rounded_text(watts) + " W로 "@,
        ),
{
    let t = crate::summary::trend_text(Some((prev, mins)), watts);
    let l = numeral(mins as nat) + "분 전)과 비교하면 전력이 "@ + rounded_text(prev) + " W에서 "@
        + rounded_text(watts) + " W로 "@;
    let sign = if at_most(whole(0), crate::double::difference(watts, prev)) {
        "+"@
    } else {
        ""@
    };
    let rest = sign + rounded_text(crate::double::difference(watts, prev)) + " W 변함\n"@;
    assert(t =~= "- 직전 브리핑("@ + l + rest);
}

/// Adds the anomalies of a server.
pub open spec fn add_anomalies() -> spec_fn(Seq<Seq<char>>, Json) -> Seq<Seq<char>> {
    |a: Seq<Seq<char>>, s: Json| a + alerts_of(facts_of(s, listed_cards(s)))
}

/// The anomalies are those of the servers that count, in their order; no server adds to those of
/// another.
pub proof fn lemma_all_anomalies(servers: Seq<Json>, k: int)
    requires
        0 <= k <= servers.len(),
    ensures
        digest_after(servers, k).alerts == servers.take(k).filter(that_count()).fold_left(
            Seq::<Seq<char>>::empty(),
            add_anomalies(),
        ),
    decreases k,
{
    reveal(Seq::filter);
    if k > 0 {
        lemma_all_anomalies(servers, k - 1);
        lemma_says(servers[k - 1]);
        assert(servers.take(k).drop_last() =~= servers.take(k - 1));
        let before = servers.take(k - 1).filter(that_count());
        let there = servers.take(k).filter(that_count());
        if counts(servers[k - 1]) {
            assert(there == before.push(servers[k - 1]));
            assert(there.drop_last() =~= before);
        } else {
            assert(there == before);
        }
    } else {
        assert(servers.take(0).filter(that_count()).len() == 0);
    }
}

/// The notices on memory, fans and starts are there for every server that has one.
#[verifier::rlimit(40)]
pub proof fn lemma_all_notices(servers: Seq<Json>, k: int, i: int)
    requires
        0 <= i < k <= servers.len(),
        counts(servers[i]),
    ensures
        ({
            let d = digest_after(servers, k);
            let f = facts_of(servers[i], listed_cards(servers[i]));
            &&& vram_of(f).len() > 0 ==> d.vram.contains(vram_of(f)[0])
            &&& fans_of(f).len() > 0 ==> d.fans.contains(fans_of(f)[0])
            &&& reboot_of(f).len() > 0 ==> d.rebooted.contains(reboot_of(f)[0])
        }),
    decreases k,
{
    let d = digest_after(servers, k - 1);
    let e = digest_after(servers, k);
    let f = facts_of(servers[i], listed_cards(servers[i]));
    lemma_says(servers[k - 1]);
    lemma_says(servers[i]);
    if i == k - 1 {
        if vram_of(f).len() > 0 {
            assert(e.vram[d.vram.len() as int] == vram_of(f)[0]);
        }
        if fans_of(f).len() > 0 {
            assert(e.fans[d.fans.len() as int] == fans_of(f)[0]);
        }
        if reboot_of(f).len() > 0 {
            assert(e.rebooted[d.rebooted.len() as int] == reboot_of(f)[0]);
        }
    } else {
        lemma_all_notices(servers, k - 1, i);
        if vram_of(f).len() > 0 {
            let j = choose|j: int| 0 <= j < d.vram.len() && d.vram[j] == vram_of(f)[0];
            assert(e.vram[j] == d.vram[j]);
        }
        if fans_of(f).len() > 0 {
            let j = choose|j: int| 0 <= j < d.fans.len() && d.fans[j] == fans_of(f)[0];
            assert(e.fans[j] == d.fans[j]);
        }
        if reboot_of(f).len() > 0 {
            let j = choose|j: int| 0 <= j < d.rebooted.len() && d.rebooted[j] == reboot_of(f)[0];
            assert(e.rebooted[j] == d.rebooted[j]);
        }
    }
}

} // verus!
