//! What the counts of the snapshot count.
//!
//! A card has a place: which server it is of, and which of its cards it is. The counts are the
//! sizes of sets of places.

use vstd::prelude::*;
use crate::double::{at_most, lemma_order, lemma_whole_exact, less, one, whole, Double};
use crate::model::{
    busy_count, gpu_busy_count, gpu_count, is_busy, oldest_ts, up_count, Gpu, Sample, Server,
    Status,
};
use crate::table::lookup;

verus! {

// ---------------------------------------------------------------- what is busy

/// Whether a number is `k` or more.
pub open spec fn reaches(x: Double, k: int) -> bool {
    &&& !x.nan()
    &&& if x.finite() {
        x.units() >= k * one()
    } else {
        !x.negative()
    }
}

/// Whether a number is more than `k`.
pub open spec fn exceeds(x: Double, k: int) -> bool {
    &&& !x.nan()
    &&& if x.finite() {
        x.units() > k * one()
    } else {
        !x.negative()
    }
}

/// Whether a card works: it is used to five percent or more, or has more than 512 MB in use.
/// What it does not report does not count.
pub open spec fn works(g: Gpu) -> bool {
    ||| g.util matches Some(u) && reaches(u, 5)
    ||| g.mem_used matches Some(m) && exceeds(m, 512)
}

pub proof fn lemma_reaches(x: Double, k: nat)
    requires
        k < 0x20_0000_0000_0000,
    ensures
        at_most(whole(k as int), x) == reaches(x, k as int),
        less(whole(k as int), x) == exceeds(x, k as int),
{
    lemma_whole_exact(k);
    if x.finite() {
        lemma_order(whole(k as int), x);
    }
}

/// A card is busy just where it works.
pub proof fn lemma_busy_works(g: Gpu)
    ensures
        is_busy(g) == works(g),
{
    lemma_whole_exact(0);
    vstd::arithmetic::power2::lemma_pow2_pos(1074);
    lemma_reaches(whole(0), 5);
    lemma_reaches(whole(0), 512);
    if let Some(u) = g.util {
        lemma_reaches(u, 5);
    }
    if let Some(m) = g.mem_used {
        lemma_reaches(m, 512);
    }
}

/// Two cards are as busy as each other where their use and their memory agree, whatever else
/// they report.
pub proof fn lemma_busy_by_use(a: Gpu, b: Gpu)
    requires
        a.util == b.util,
        a.mem_used == b.mem_used,
    ensures
        is_busy(a) == is_busy(b),
{
    lemma_busy_works(a);
    lemma_busy_works(b);
}

// ---------------------------------------------------------------- places of cards

/// Which cards.
#[derive(PartialEq, Eq, Structural)]
pub enum Which {
    All,
    Working,
    Idle,
}

/// Whether it is such a card.
pub open spec fn is_such(w: Which, g: Gpu) -> bool {
    match w {
        Which::All => true,
        Which::Working => works(g),
        Which::Idle => !works(g),
    }
}

/// Whether server `i` is up, and card `j` of it is such a card.
pub open spec fn is_place(
    w: Which,
    order: Seq<&Server>,
    samples: Seq<(Seq<char>, Sample)>,
    i: int,
    j: int,
) -> bool {
    &&& 0 <= i < order.len()
    &&& lookup(samples, order[i].name@) is Some
    &&& ({
        let d = lookup(samples, order[i].name@)->0;
        d.status == Status::Up && 0 <= j < d.gpus@.len() && is_such(w, d.gpus@[j])
    })
}

/// The places of all such cards.
pub open spec fn places(w: Which, order: Seq<&Server>, samples: Seq<(Seq<char>, Sample)>) -> Set<
    (int, int),
> {
    Set::new(|p: (int, int)| is_place(w, order, samples, p.0, p.1))
}

/// The servers that are up.
pub open spec fn places_up(order: Seq<&Server>, samples: Seq<(Seq<char>, Sample)>) -> Set<int> {
    Set::new(
        |i: int|
            0 <= i < order.len() && lookup(samples, order[i].name@) is Some && lookup(
                samples,
                order[i].name@,
            )->0.status == Status::Up,
    )
}

/// The places before server `n`, and those of server `n` before card `m`.
spec fn places_to(
    w: Which,
    order: Seq<&Server>,
    samples: Seq<(Seq<char>, Sample)>,
    n: int,
    m: int,
) -> Set<(int, int)> {
    Set::new(
        |p: (int, int)|
            is_place(w, order, samples, p.0, p.1) && (p.0 < n || (p.0 == n && p.1 < m)),
    )
}

spec fn such_count(w: Which, gpus: Seq<Gpu>, m: int) -> nat {
    match w {
        Which::All => m as nat,
        Which::Working => busy_count(gpus, m),
        Which::Idle => (m - busy_count(gpus, m)) as nat,
    }
}

spec fn such_total(
    w: Which,
    order: Seq<&Server>,
    samples: Seq<(Seq<char>, Sample)>,
    n: int,
) -> int {
    match w {
        Which::All => gpu_count(order, samples, n) as int,
        Which::Working => gpu_busy_count(order, samples, n) as int,
        Which::Idle => gpu_count(order, samples, n) - gpu_busy_count(order, samples, n),
    }
}

proof fn lemma_busy_bound(gpus: Seq<Gpu>, m: int)
    requires
        0 <= m,
    ensures
        busy_count(gpus, m) <= m,
    decreases m,
{
    if m > 0 {
        lemma_busy_bound(gpus, m - 1);
    }
}

proof fn lemma_cards(
    w: Which,
    order: Seq<&Server>,
    samples: Seq<(Seq<char>, Sample)>,
    n: int,
    m: int,
)
    requires
        0 <= n < order.len(),
        lookup(samples, order[n].name@) is Some,
        lookup(samples, order[n].name@)->0.status == Status::Up,
        0 <= m <= lookup(samples, order[n].name@)->0.gpus@.len(),
        places_to(w, order, samples, n, 0).finite(),
    ensures
        places_to(w, order, samples, n, m).finite(),
        places_to(w, order, samples, n, m).len() == places_to(w, order, samples, n, 0).len()
            + such_count(w, lookup(samples, order[n].name@)->0.gpus@, m),
    decreases m,
{
    let gpus = lookup(samples, order[n].name@)->0.gpus@;
    if m > 0 {
        lemma_cards(w, order, samples, n, m - 1);
        lemma_busy_works(gpus[m - 1]);
        lemma_busy_bound(gpus, m - 1);
        let a = places_to(w, order, samples, n, m - 1);
        let b = places_to(w, order, samples, n, m);
        if is_such(w, gpus[m - 1]) {
            assert(b =~= a.insert((n, m - 1)));
            assert(!a.contains((n, m - 1)));
        } else {
            assert(b =~= a);
        }
    }
}

proof fn lemma_places_to(w: Which, order: Seq<&Server>, samples: Seq<(Seq<char>, Sample)>, n: int)
    requires
        0 <= n <= order.len(),
    ensures
        places_to(w, order, samples, n, 0).finite(),
        places_to(w, order, samples, n, 0).len() == such_total(w, order, samples, n),
        gpu_busy_count(order, samples, n) <= gpu_count(order, samples, n),
    decreases n,
{
    if n == 0 {
        assert(places_to(w, order, samples, 0, 0) =~= Set::empty());
    } else {
        lemma_places_to(w, order, samples, n - 1);
        let d = lookup(samples, order[n - 1].name@);
        let a = places_to(w, order, samples, n - 1, 0);
        let b = places_to(w, order, samples, n, 0);
        if d is Some && d->0.status == Status::Up {
            let k = d->0.gpus@.len() as int;
            lemma_cards(w, order, samples, n - 1, k);
            lemma_busy_bound(d->0.gpus@, k);
            assert(b =~= places_to(w, order, samples, n - 1, k));
        } else {
            assert(b =~= a);
        }
    }
}

/// The law of the counts. The number of cards is that of the cards of servers that are up, the
/// number of busy ones that of those that work, and what is left is that of those that do not:
/// each card counts by itself.
pub proof fn lemma_counts_cards(order: Seq<&Server>, samples: Seq<(Seq<char>, Sample)>)
    ensures
        ({
            let n = order.len() as int;
            &&& places(Which::All, order, samples).finite()
            &&& places(Which::Working, order, samples).finite()
            &&& places(Which::Idle, order, samples).finite()
            &&& gpu_count(order, samples, n) == places(Which::All, order, samples).len()
            &&& gpu_busy_count(order, samples, n) == places(Which::Working, order, samples).len()
            &&& gpu_count(order, samples, n) - gpu_busy_count(order, samples, n) == places(
                Which::Idle,
                order,
                samples,
            ).len()
        }),
{
    let n = order.len() as int;
    lemma_places_to(Which::All, order, samples, n);
    lemma_places_to(Which::Working, order, samples, n);
    lemma_places_to(Which::Idle, order, samples, n);
    assert(places(Which::All, order, samples) =~= places_to(Which::All, order, samples, n, 0));
    assert(places(Which::Working, order, samples) =~= places_to(
        Which::Working,
        order,
        samples,
        n,
        0,
    ));
    assert(places(Which::Idle, order, samples) =~= places_to(Which::Idle, order, samples, n, 0));
}

proof fn lemma_up_to(order: Seq<&Server>, samples: Seq<(Seq<char>, Sample)>, n: int)
    requires
        0 <= n <= order.len(),
    ensures
        places_up(order, samples).filter(|i: int| i < n).finite(),
        places_up(order, samples).filter(|i: int| i < n).len() == up_count(order, samples, n),
    decreases n,
{
    let all = places_up(order, samples);
    let b = all.filter(|i: int| i < n);
    if n == 0 {
        assert(b =~= Set::empty());
    } else {
        lemma_up_to(order, samples, n - 1);
        let a = all.filter(|i: int| i < n - 1);
        if all.contains(n - 1) {
            assert(b =~= a.insert(n - 1));
        } else {
            assert(b =~= a);
        }
    }
}

/// The number of servers that are up is that of the servers whose last sample says so.
pub proof fn lemma_counts_servers(order: Seq<&Server>, samples: Seq<(Seq<char>, Sample)>)
    ensures
        places_up(order, samples).finite(),
        up_count(order, samples, order.len() as int) == places_up(order, samples).len(),
{
    let n = order.len() as int;
    lemma_up_to(order, samples, n);
    assert(places_up(order, samples).filter(|i: int| i < n) =~= places_up(order, samples));
}

proof fn lemma_oldest_to(order: Seq<&Server>, samples: Seq<(Seq<char>, Sample)>, n: int)
    requires
        0 <= n <= order.len(),
    ensures
        ({
            let o = oldest_ts(order, samples, n);
            &&& forall|i: int|
                0 <= i < n && lookup(samples, (#[trigger] order[i]).name@) is Some && lookup(
                    samples,
                    order[i].name@,
                )->0.ts > 0 ==> 0 < o <= lookup(samples, order[i].name@)->0.ts
            &&& o > 0 ==> exists|i: int|
                0 <= i < n && lookup(samples, (#[trigger] order[i]).name@) is Some && lookup(
                    samples,
                    order[i].name@,
                )->0.ts == o
        }),
    decreases n,
{
    if n > 0 {
        lemma_oldest_to(order, samples, n - 1);
        assert(order[n - 1] == order[n - 1]);
    }
}

/// The time of the snapshot is that of the oldest sample of its servers: no sample that was taken
/// is older, and it is that of one of them, or zero where none was taken.
pub proof fn lemma_oldest(order: Seq<&Server>, samples: Seq<(Seq<char>, Sample)>)
    ensures
        ({
            let o = oldest_ts(order, samples, order.len() as int);
            &&& forall|i: int|
                0 <= i < order.len() && lookup(samples, (#[trigger] order[i]).name@) is Some
                    && lookup(samples, order[i].name@)->0.ts > 0 ==> 0 < o <= lookup(
                    samples,
                    order[i].name@,
                )->0.ts
            &&& o > 0 ==> exists|i: int|
                0 <= i < order.len() && lookup(samples, (#[trigger] order[i]).name@) is Some
                    && lookup(samples, order[i].name@)->0.ts == o
        }),
{
    lemma_oldest_to(order, samples, order.len() as int);
}

} // verus!
