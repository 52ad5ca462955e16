//! Tables keyed by text, in the order of their keys.

use vstd::prelude::*;
use crate::text::{before, eq_str, str_before};

verus! {

broadcast use vstd::string::group_string_axioms;

/// The entries with `k` bound to `v`, in the place where the order of the keys puts it.
pub open spec fn put<V>(m: Seq<(Seq<char>, V)>, k: Seq<char>, v: V) -> Seq<(Seq<char>, V)>
    decreases m.len(),
{
    if m.len() == 0 {
        seq![(k, v)]
    } else if m[0].0 == k {
        seq![(k, v)] + m.skip(1)
    } else if before(k, m[0].0) {
        seq![(k, v)] + m
    } else {
        seq![m[0]] + put(m.skip(1), k, v)
    }
}

/// What `k` is bound to.
pub open spec fn lookup<V>(m: Seq<(Seq<char>, V)>, k: Seq<char>) -> Option<V>
    decreases m.len(),
{
    if m.len() == 0 {
        None
    } else if m[0].0 == k {
        Some(m[0].1)
    } else {
        lookup(m.skip(1), k)
    }
}

/// Whether `k` stands first at `i`.
pub open spec fn is_first<V>(m: Seq<(Seq<char>, V)>, k: Seq<char>, i: int) -> bool {
    &&& 0 <= i < m.len()
    &&& m[i].0 == k
    &&& forall|j: int| 0 <= j < i ==> (#[trigger] m[j]).0 != k
}

/// Whether the keys are in order, each once.
pub open spec fn ordered<V>(m: Seq<(Seq<char>, V)>) -> bool {
    forall|i: int, j: int| 0 <= i < j < m.len() ==> before(#[trigger] m[i].0, #[trigger] m[j].0)
}

/// What was put under a key is found there, and everything else stays as it was.
pub proof fn lemma_put_lookup<V>(m: Seq<(Seq<char>, V)>, k: Seq<char>, v: V, l: Seq<char>)
    ensures
        lookup(put(m, k, v), l) == if l == k {
            Some(v)
        } else {
            lookup(m, l)
        },
    decreases m.len(),
{
    let p = put(m, k, v);
    if m.len() == 0 {
        assert(p.skip(1).len() == 0);
        assert(lookup(p.skip(1), l) is None);
    } else if m[0].0 == k || before(k, m[0].0) {
        if m[0].0 == k {
            assert(p.skip(1) =~= m.skip(1));
        } else {
            assert(p.skip(1) =~= m);
        }
    } else {
        lemma_put_lookup(m.skip(1), k, v, l);
        assert(p.skip(1) =~= put(m.skip(1), k, v));
    }
}

/// The entries with `g` applied to what the keys are bound to.
pub open spec fn mapped<V, W>(m: Seq<(Seq<char>, V)>, g: spec_fn(V) -> W) -> Seq<(Seq<char>, W)> {
    Seq::new(m.len(), |i: int| (m[i].0, g(m[i].1)))
}

pub proof fn lemma_put_mapped<V, W>(
    m: Seq<(Seq<char>, V)>,
    g: spec_fn(V) -> W,
    k: Seq<char>,
    v: V,
)
    ensures
        mapped(put(m, k, v), g) == put(mapped(m, g), k, g(v)),
    decreases m.len(),
{
    let a = mapped(m, g);
    if m.len() == 0 {
        assert(mapped(put(m, k, v), g) =~= put(a, k, g(v)));
    } else {
        assert(mapped(m.skip(1), g) =~= a.skip(1));
        if m[0].0 != k && !before(k, m[0].0) {
            lemma_put_mapped(m.skip(1), g, k, v);
        }
        assert(mapped(put(m, k, v), g) =~= put(a, k, g(v)));
    }
}

pub proof fn lemma_lookup_mapped<V, W>(m: Seq<(Seq<char>, V)>, g: spec_fn(V) -> W, k: Seq<char>)
    ensures
        lookup(mapped(m, g), k) == match lookup(m, k) {
            Some(v) => Some(g(v)),
            None => None,
        },
    decreases m.len(),
{
    if m.len() > 0 {
        assert(mapped(m.skip(1), g) =~= mapped(m, g).skip(1));
        lemma_lookup_mapped(m.skip(1), g, k);
    }
}

/// The order of texts is total.
pub proof fn lemma_before_total(a: Seq<char>, b: Seq<char>)
    ensures
        a == b || before(a, b) || before(b, a),
        !(before(a, b) && before(b, a)),
        a == b ==> !before(a, b),
    decreases a.len(),
{
    if a.len() == 0 || b.len() == 0 {
        assert(a.len() == b.len() ==> a =~= b);
    } else if a[0] == b[0] {
        lemma_before_total(a.skip(1), b.skip(1));
        if a.skip(1) == b.skip(1) {
            assert(a =~= seq![a[0]] + a.skip(1));
            assert(b =~= seq![b[0]] + b.skip(1));
        }
    }
}

/// The order of texts is transitive.
pub proof fn lemma_before_transitive(a: Seq<char>, b: Seq<char>, c: Seq<char>)
    requires
        before(a, b),
        before(b, c),
    ensures
        before(a, c),
    decreases c.len(),
{
    if a.len() > 0 && a[0] == b[0] && b[0] == c[0] {
        lemma_before_transitive(a.skip(1), b.skip(1), c.skip(1));
    }
}

proof fn lemma_put_keys<V>(m: Seq<(Seq<char>, V)>, k: Seq<char>, v: V, i: int)
    requires
        0 <= i < put(m, k, v).len(),
    ensures
        put(m, k, v)[i].0 == k || exists|j: int|
            0 <= j < m.len() && (#[trigger] m[j]).0 == put(m, k, v)[i].0,
    decreases m.len(),
{
    let p = put(m, k, v);
    if m.len() == 0 {
    } else if m[0].0 == k {
        if i > 0 {
            assert(m[i].0 == p[i].0);
        }
    } else if before(k, m[0].0) {
        if i > 0 {
            assert(m[i - 1].0 == p[i].0);
        }
    } else {
        if i > 0 {
            let r = m.skip(1);
            lemma_put_keys(r, k, v, i - 1);
            assert(p[i] == put(r, k, v)[i - 1]);
            if p[i].0 != k {
                let j = choose|j: int| 0 <= j < r.len() && (#[trigger] r[j]).0 == p[i].0;
                assert(m[j + 1] == r[j]);
            }
        } else {
            assert(m[0].0 == p[0].0);
        }
    }
}

/// Putting keeps the keys in order, each once.
pub proof fn lemma_put_ordered<V>(m: Seq<(Seq<char>, V)>, k: Seq<char>, v: V)
    requires
        ordered(m),
    ensures
        ordered(put(m, k, v)),
    decreases m.len(),
{
    let p = put(m, k, v);
    if m.len() > 0 {
        let r = m.skip(1);
        assert forall|i: int, j: int| 0 <= i < j < r.len() implies before(
            #[trigger] r[i].0,
            #[trigger] r[j].0,
        ) by {
            assert(r[i] == m[i + 1] && r[j] == m[j + 1]);
        }
        lemma_put_ordered(r, k, v);
        lemma_before_total(k, m[0].0);
        assert forall|i: int, j: int| 0 <= i < j < p.len() implies before(
            #[trigger] p[i].0,
            #[trigger] p[j].0,
        ) by {
            if m[0].0 == k {
                assert(p[j].0 == m[j].0 && p[i].0 == m[i].0);
            } else if before(k, m[0].0) {
                assert(p[j] == m[j - 1]);
                if i == 0 {
                    if j > 1 {
                        assert(before(m[0].0, m[j - 1].0));
                        lemma_before_transitive(k, m[0].0, m[j - 1].0);
                    }
                } else {
                    assert(p[i] == m[i - 1]);
                }
            } else {
                let q = put(r, k, v);
                assert(p[j] == q[j - 1]);
                if i > 0 {
                    assert(p[i] == q[i - 1]);
                } else {
                    lemma_put_keys(r, k, v, j - 1);
                    if q[j - 1].0 != k {
                        let l = choose|l: int|
                            0 <= l < r.len() && (#[trigger] r[l]).0 == q[j - 1].0;
                        assert(m[l + 1] == r[l]);
                        assert(before(m[0].0, m[l + 1].0));
                    }
                }
            }
        }
    }
}

/// A table from text to `V`.
#[derive(Debug, Clone)]
pub struct Table<V> {
    pub entries: Vec<(String, V)>,
}

impl<V> View for Table<V> {
    type V = Seq<(Seq<char>, V)>;

    open spec fn view(&self) -> Seq<(Seq<char>, V)> {
        Seq::new(self.entries@.len(), |i: int| (self.entries@[i].0@, self.entries@[i].1))
    }
}

impl<V> Table<V> {
    /// A table without entries.
    pub fn new() -> (r: Self)
        ensures
            r@ == Seq::<(Seq<char>, V)>::empty(),
            ordered(r@),
    {
        let r = Table { entries: Vec::new() };
        assert(r@ =~= Seq::<(Seq<char>, V)>::empty());
        r
    }

    /// Where `k` stands, or where it would have to.
    fn position(&self, k: &str) -> (r: (usize, bool))
        ensures
            r.0 <= self@.len(),
            r.1 ==> r.0 < self@.len() && self@[r.0 as int].0 == k@,
            r.1 ==> lookup(self@, k@) == Some(self@[r.0 as int].1),
            forall|v: V|
                put(self@, k@, v) == self@.take(r.0 as int) + seq![(k@, v)] + self@.skip(
                    if r.1 {
                        r.0 + 1
                    } else {
                        r.0 as int
                    },
                ),
    {
        let ghost e = self@;
        let mut i: usize = 0;
        assert(e.skip(0) =~= e);
        proof {
            assert forall|v: V| put(e, k@, v) == e.take(0) + put(e.skip(0), k@, v) by {
                assert(e.take(0) + put(e.skip(0), k@, v) =~= put(e, k@, v));
            }
        }
        while i < self.entries.len()
            invariant
                e == self@,
                i <= e.len(),
                lookup(e, k@) == lookup(e.skip(i as int), k@),
                forall|v: V| put(e, k@, v) == e.take(i as int) + put(e.skip(i as int), k@, v),
            decreases e.len() - i,
        {
            let ghost rest = e.skip(i as int);
            proof {
                assert(rest.skip(1) =~= e.skip(i + 1));
            }
            if eq_str(self.entries[i].0.as_str(), k) {
                proof {
                    assert forall|v: V|
                        put(e, k@, v) == e.take(i as int) + seq![(k@, v)] + e.skip(i + 1) by {
                        assert(e.take(i as int) + (seq![(k@, v)] + rest.skip(1)) =~= e.take(
                            i as int,
                        ) + seq![(k@, v)] + e.skip(i + 1));
                    }
                }
                return (i, true);
            }
            if str_before(k, self.entries[i].0.as_str()) {
                proof {
                    assert forall|v: V|
                        put(e, k@, v) == e.take(i as int) + seq![(k@, v)] + e.skip(i as int) by {
                        assert(e.take(i as int) + (seq![(k@, v)] + rest) =~= e.take(i as int)
                            + seq![(k@, v)] + e.skip(i as int));
                    }
                }
                return (i, false);
            }
            proof {
                assert forall|v: V|
                    put(e, k@, v) == e.take(i + 1) + put(e.skip(i + 1), k@, v) by {
                    assert(e.take(i as int) + (seq![rest[0]] + put(rest.skip(1), k@, v))
                        =~= e.take(i + 1) + put(e.skip(i + 1), k@, v));
                }
            }
            i = i + 1;
        }
        proof {
            assert forall|v: V|
                put(e, k@, v) == e.take(i as int) + seq![(k@, v)] + e.skip(i as int) by {
                assert(e.take(i as int) + seq![(k@, v)] =~= e.take(i as int) + seq![(k@, v)]
                    + e.skip(i as int));
            }
        }
        (i, false)
    }

    /// Binds `k` to `v`. Keys that are in order, each once, stay so.
    pub fn insert(&mut self, k: String, v: V)
        ensures
            final(self)@ == put(old(self)@, k@, v),
            ordered(old(self)@) ==> ordered(final(self)@),
    {
        let ghost e = self@;
        proof {
            if ordered(e) {
                lemma_put_ordered(e, k@, v);
            }
        }
        let (i, there) = self.position(k.as_str());
        let ghost kk = k@;
        if there {
            self.entries.set(i, (k, v));
            assert(self@ =~= e.take(i as int) + seq![(kk, v)] + e.skip(i + 1));
        } else {
            self.entries.insert(i, (k, v));
            assert(self@ =~= e.take(i as int) + seq![(kk, v)] + e.skip(i as int));
        }
    }

    /// Where `k` stands first.
    pub fn find(&self, k: &str) -> (r: Option<usize>)
        ensures
            match r {
                Some(i) => is_first(self@, k@, i as int) && lookup(self@, k@) == Some(
                    self@[i as int].1,
                ),
                None => lookup(self@, k@) is None,
            },
    {
        let ghost e = self@;
        let mut i: usize = 0;
        assert(e.skip(0) =~= e);
        while i < self.entries.len()
            invariant
                e == self@,
                i <= e.len(),
                lookup(e, k@) == lookup(e.skip(i as int), k@),
                forall|j: int| 0 <= j < i ==> (#[trigger] e[j]).0 != k@,
            decreases e.len() - i,
        {
            proof {
                assert(e.skip(i as int).skip(1) =~= e.skip(i + 1));
            }
            if eq_str(self.entries[i].0.as_str(), k) {
                return Some(i);
            }
            i = i + 1;
        }
        None
    }

    /// What `k` is bound to.
    pub fn get(&self, k: &str) -> (r: Option<&V>)
        ensures
            match r {
                Some(v) => lookup(self@, k@) == Some(*v),
                None => lookup(self@, k@) is None,
            },
    {
        match self.find(k) {
            Some(i) => Some(&self.entries[i].1),
            None => None,
        }
    }
}

} // verus!
