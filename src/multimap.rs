use vstd::prelude::*;

use crate::line::{lemma_ranks_injective, Ranked};

verus! {

/// Lexicographic order on pairs, by key and then by value.
pub open spec fn pair_lt<K: Ranked, V: Ranked>(a: (K, V), b: (K, V)) -> bool {
    a.0.rank() < b.0.rank() || (a.0.rank() == b.0.rank() && a.1.rank() < b.1.rank())
}

/// Each element strictly precedes the ones after it.
pub open spec fn pairs_sorted<K: Ranked, V: Ranked>(s: Seq<(K, V)>) -> bool {
    forall|i: int, j: int| 0 <= i < j < s.len() ==> #[trigger] pair_lt(s[i], s[j])
}

/// Each value strictly precedes the ones after it.
pub open spec fn values_sorted<V: Ranked>(s: Seq<V>) -> bool {
    forall|i: int, j: int| 0 <= i < j < s.len() ==> #[trigger] s[i].rank() < #[trigger] s[j].rank()
}

/// The values that a set of pairs holds at key `k`.
pub open spec fn values_at<K, V>(pairs: Set<(K, V)>, k: K) -> Set<V> {
    Set::new(|v: V| pairs.contains((k, v)))
}

/// A set of pairs read as a partial function from keys to value sets: a key is
/// present exactly when some value is stored at it.
pub open spec fn as_map<K, V>(pairs: Set<(K, V)>) -> Map<K, Set<V>> {
    Map::new(|k: K| exists|v: V| pairs.contains((k, v)), |k: K| values_at(pairs, k))
}

/// Two strictly sorted sequences with the same elements are equal.
pub proof fn lemma_sorted_unique<K: Ranked, V: Ranked>(a: Seq<(K, V)>, b: Seq<(K, V)>)
    requires
        pairs_sorted(a),
        pairs_sorted(b),
        forall|p: (K, V)| a.contains(p) <==> b.contains(p),
    ensures
        a == b,
    decreases a.len(),
{
    if a.len() == 0 {
        if b.len() > 0 {
            assert(b.contains(b[0]));
        }
        assert(a =~= b);
    } else {
        assert(a.contains(a[0]));
        assert(b.len() > 0);
        assert(b.contains(b[0]));
        let i = choose|i: int| 0 <= i < a.len() && a[i] == b[0];
        let j = choose|j: int| 0 <= j < b.len() && b[j] == a[0];
        if i > 0 && j > 0 {
            assert(pair_lt(a[0], a[i]));
            assert(pair_lt(b[0], b[j]));
        } else if i > 0 {
            assert(pair_lt(a[0], a[i]));
        } else if j > 0 {
            assert(pair_lt(b[0], b[j]));
        }
        assert(a[0] == b[0]);
        let (ra, rb) = (a.drop_first(), b.drop_first());
        assert forall|p: (K, V)| ra.contains(p) <==> rb.contains(p) by {
            if ra.contains(p) {
                let x = choose|x: int| 0 <= x < ra.len() && ra[x] == p;
                assert(a[x + 1] == p);
                assert(pair_lt(a[0], a[x + 1]));
                assert(b.contains(p));
                let y = choose|y: int| 0 <= y < b.len() && b[y] == p;
                assert(y != 0);
                assert(rb[y - 1] == p);
            }
            if rb.contains(p) {
                let x = choose|x: int| 0 <= x < rb.len() && rb[x] == p;
                assert(b[x + 1] == p);
                assert(pair_lt(b[0], b[x + 1]));
                assert(a.contains(p));
                let y = choose|y: int| 0 <= y < a.len() && a[y] == p;
                assert(y != 0);
                assert(ra[y - 1] == p);
            }
        }
        assert(pairs_sorted(ra)) by {
            assert forall|x: int, y: int| 0 <= x < y < ra.len() implies #[trigger] pair_lt(ra[x], ra[y]) by {
                assert(pair_lt(a[x + 1], a[y + 1]));
            }
        }
        assert(pairs_sorted(rb)) by {
            assert forall|x: int, y: int| 0 <= x < y < rb.len() implies #[trigger] pair_lt(rb[x], rb[y]) by {
                assert(pair_lt(b[x + 1], b[y + 1]));
            }
        }
        lemma_sorted_unique(ra, rb);
        assert(a =~= b) by {
            assert forall|x: int| 0 <= x < a.len() implies a[x] == b[x] by {
                if x > 0 {
                    assert(a[x] == ra[x - 1]);
                    assert(b[x] == rb[x - 1]);
                }
            }
        }
    }
}

/// A map from keys to ordered sets of values, stored as one sorted run of
/// distinct `(key, value)` pairs, so that a key with no values takes no room.
#[derive(Clone, Debug, PartialEq, Eq)]
pub struct MMap<K, V> {
    pairs: Vec<(K, V)>,
}

impl<K: Ranked, V: Ranked> View for MMap<K, V> {
    type V = Set<(K, V)>;

    closed spec fn view(&self) -> Set<(K, V)> {
        Set::new(|p: (K, V)| self.pairs@.contains(p))
    }
}

/// Strict lexicographic comparison of two pairs.
fn pair_less<K: Ranked, V: Ranked>(a: &(K, V), b: &(K, V)) -> (r: bool)
    ensures
        r == pair_lt(*a, *b),
{
    a.0.less(&b.0) || (!b.0.less(&a.0) && a.1.less(&b.1))
}

impl<K: Ranked, V: Ranked> MMap<K, V> {
    pub closed spec fn wf(&self) -> bool {
        pairs_sorted(self.pairs@)
    }

    /// The sorted pairs that make up the map.
    pub closed spec fn entries(&self) -> Seq<(K, V)> {
        self.pairs@
    }

    pub proof fn lemma_entries(&self)
        requires
            self.wf(),
        ensures
            pairs_sorted(self.entries()),
            forall|p: (K, V)| self@.contains(p) <==> self.entries().contains(p),
    {
    }

    pub fn new() -> (r: MMap<K, V>)
        ensures
            r.wf(),
            r@ == Set::<(K, V)>::empty(),
    {
        let r = MMap { pairs: Vec::new() };
        assert(r@ =~= Set::<(K, V)>::empty());
        r
    }

    /// The first position whose pair does not precede `t`.
    fn lower_bound(&self, t: &(K, V)) -> (i: usize)
        requires
            self.wf(),
        ensures
            i <= self.pairs@.len(),
            forall|j: int| 0 <= j < i ==> pair_lt(#[trigger] self.pairs@[j], *t),
            forall|j: int| i <= j < self.pairs@.len() ==> !pair_lt(#[trigger] self.pairs@[j], *t),
    {
        let mut lo: usize = 0;
        let mut hi: usize = self.pairs.len();
        while lo < hi
            invariant
                self.wf(),
                lo <= hi <= self.pairs@.len(),
                forall|j: int| 0 <= j < lo ==> pair_lt(#[trigger] self.pairs@[j], *t),
                forall|j: int| hi <= j < self.pairs@.len() ==> !pair_lt(#[trigger] self.pairs@[j], *t),
            decreases hi - lo,
        {
            let mid = lo + (hi - lo) / 2;
            if pair_less(&self.pairs[mid], t) {
                assert forall|j: int| 0 <= j < mid + 1 implies pair_lt(#[trigger] self.pairs@[j], *t) by {
                    if j < mid {
                        assert(pair_lt(self.pairs@[j], self.pairs@[mid as int]));
                    }
                }
                lo = mid + 1;
            } else {
                assert forall|j: int| mid <= j < self.pairs@.len() implies !pair_lt(#[trigger] self.pairs@[j], *t) by {
                    if j > mid {
                        assert(pair_lt(self.pairs@[mid as int], self.pairs@[j]));
                    }
                }
                hi = mid;
            }
        }
        lo
    }

    /// The first position whose key does not precede `k`.
    fn key_lower_bound(&self, k: &K) -> (i: usize)
        requires
            self.wf(),
        ensures
            i <= self.pairs@.len(),
            forall|j: int| 0 <= j < i ==> (#[trigger] self.pairs@[j]).0.rank() < k.rank(),
            forall|j: int| i <= j < self.pairs@.len() ==> (#[trigger] self.pairs@[j]).0.rank() >= k.rank(),
    {
        let mut lo: usize = 0;
        let mut hi: usize = self.pairs.len();
        while lo < hi
            invariant
                self.wf(),
                lo <= hi <= self.pairs@.len(),
                forall|j: int| 0 <= j < lo ==> (#[trigger] self.pairs@[j]).0.rank() < k.rank(),
                forall|j: int| hi <= j < self.pairs@.len() ==> (#[trigger] self.pairs@[j]).0.rank() >= k.rank(),
            decreases hi - lo,
        {
            let mid = lo + (hi - lo) / 2;
            if self.pairs[mid].0.less(k) {
                assert forall|j: int| 0 <= j < mid + 1 implies (#[trigger] self.pairs@[j]).0.rank() < k.rank() by {
                    if j < mid {
                        assert(pair_lt(self.pairs@[j], self.pairs@[mid as int]));
                    }
                }
                lo = mid + 1;
            } else {
                assert forall|j: int| mid <= j < self.pairs@.len() implies (#[trigger] self.pairs@[j]).0.rank() >= k.rank() by {
                    if j > mid {
                        assert(pair_lt(self.pairs@[mid as int], self.pairs@[j]));
                    }
                }
                hi = mid;
            }
        }
        lo
    }

    /// The values at `key`, in ascending order.
    pub fn get(&self, key: &K) -> (r: Vec<V>)
        requires
            self.wf(),
        ensures
            values_sorted(r@),
            forall|v: V| r@.contains(v) <==> self@.contains((*key, v)),
    {
        let start = self.key_lower_bound(key);
        let mut r: Vec<V> = Vec::new();
        let mut i: usize = start;
        proof { lemma_ranks_injective::<K>(); }
        while i < self.pairs.len() && self.pairs[i].0.same(key)
            invariant
                self.wf(),
                start <= i <= self.pairs@.len(),
                forall|j: int| 0 <= j < start ==> (#[trigger] self.pairs@[j]).0.rank() < key.rank(),
                forall|j: int| start <= j < self.pairs@.len() ==> (#[trigger] self.pairs@[j]).0.rank() >= key.rank(),
                r@.len() == i - start,
                forall|j: int| start <= j < i ==> (#[trigger] self.pairs@[j]).0 == *key,
                forall|j: int| 0 <= j < r@.len() ==> r@[j] == #[trigger] self.pairs@[start + j].1,
                forall|a: K, b: K| #[trigger] a.rank() == #[trigger] b.rank() ==> a == b,
            decreases self.pairs@.len() - i,
        {
            r.push(self.pairs[i].1);
            i = i + 1;
        }
        assert forall|a: int, b: int| 0 <= a < b < r@.len() implies #[trigger] r@[a].rank() < #[trigger] r@[b].rank() by {
            assert(pair_lt(self.pairs@[start + a], self.pairs@[start + b]));
        }
        assert forall|v: V| r@.contains(v) <==> self@.contains((*key, v)) by {
            if self@.contains((*key, v)) {
                let j = choose|j: int| 0 <= j < self.pairs@.len() && self.pairs@[j] == (*key, v);
                if j >= i {
                    assert(i < self.pairs@.len());
                    assert(self.pairs@[i as int].0 != *key);
                    assert(self.pairs@[i as int].0.rank() >= key.rank());
                    if j > i {
                        assert(pair_lt(self.pairs@[i as int], self.pairs@[j]));
                    }
                    assert(self.pairs@[i as int].0.rank() != key.rank());
                    assert(false);
                }
                assert(self.pairs@[j].0.rank() == key.rank());
                assert(j >= start);
                assert(r@[j - start] == self.pairs@[start + (j - start)].1);
                assert(r@[j - start] == v);
            }
            if r@.contains(v) {
                let j = choose|j: int| 0 <= j < r@.len() && r@[j] == v;
                assert(self.pairs@[start + j] == (*key, v));
            }
        }
        r
    }

    /// Whether `val` is stored at `key`.
    pub fn contains(&self, key: &K, val: &V) -> (r: bool)
        requires
            self.wf(),
        ensures
            r == self@.contains((*key, *val)),
    {
        let t = (*key, *val);
        let i = self.lower_bound(&t);
        proof {
            lemma_ranks_injective::<K>();
            lemma_ranks_injective::<V>();
        }
        let r = i < self.pairs.len() && self.pairs[i].0.same(key) && self.pairs[i].1.same(val);
        proof {
            if !r && self@.contains(t) {
                let j = choose|j: int| 0 <= j < self.pairs@.len() && self.pairs@[j] == t;
                assert(!pair_lt(self.pairs@[j], t));
                assert(j >= i);
                if j > i {
                    assert(pair_lt(self.pairs@[i as int], self.pairs@[j]));
                    assert(!pair_lt(self.pairs@[i as int], t));
                }
                assert(false);
            }
        }
        r
    }

    /// Adds `val` to the values at `key`; nothing changes if it is there already.
    pub fn insert(&mut self, key: K, val: V)
        requires
            old(self).wf(),
        ensures
            final(self).wf(),
            final(self)@ == old(self)@.insert((key, val)),
    {
        let t = (key, val);
        let i = self.lower_bound(&t);
        proof {
            lemma_ranks_injective::<K>();
            lemma_ranks_injective::<V>();
        }
        if i < self.pairs.len() && self.pairs[i].0.same(&key) && self.pairs[i].1.same(&val) {
            assert(self@ =~= old(self)@.insert(t));
        } else {
            let ghost s0 = self.pairs@;
            self.pairs.insert(i, t);
            proof {
                if i < s0.len() {
                    assert(!pair_lt(s0[i as int], t));
                    assert(s0[i as int] != t);
                    assert(pair_lt(t, s0[i as int]));
                }
                assert forall|a: int, b: int| 0 <= a < b < self.pairs@.len() implies #[trigger] pair_lt(self.pairs@[a], self.pairs@[b]) by {
                    if b < i {
                    } else if b == i {
                    } else if a < i {
                        assert(pair_lt(s0[a], s0[b - 1]));
                    } else if a == i {
                        if b - 1 > i {
                            assert(pair_lt(s0[i as int], s0[b - 1]));
                        }
                    } else {
                        assert(pair_lt(s0[a - 1], s0[b - 1]));
                    }
                }
                assert forall|p: (K, V)| self@.contains(p) <==> old(self)@.insert(t).contains(p) by {
                    if self.pairs@.contains(p) {
                        let j = choose|j: int| 0 <= j < self.pairs@.len() && self.pairs@[j] == p;
                        if j < i {
                            assert(s0[j] == p);
                        } else if j > i {
                            assert(s0[j - 1] == p);
                        }
                    }
                    if s0.contains(p) {
                        let j = choose|j: int| 0 <= j < s0.len() && s0[j] == p;
                        if j < i {
                            assert(self.pairs@[j] == p);
                        } else {
                            assert(self.pairs@[j + 1] == p);
                        }
                    }
                    if p == t {
                        assert(self.pairs@[i as int] == p);
                    }
                }
                assert(self@ =~= old(self)@.insert(t));
            }
        }
    }

    /// Takes `val` out of the values at `key`, and says whether it was there.
    pub fn remove(&mut self, key: &K, val: &V) -> (r: bool)
        requires
            old(self).wf(),
        ensures
            final(self).wf(),
            r == old(self)@.contains((*key, *val)),
            final(self)@ == old(self)@.remove((*key, *val)),
    {
        let t = (*key, *val);
        let i = self.lower_bound(&t);
        proof {
            lemma_ranks_injective::<K>();
            lemma_ranks_injective::<V>();
        }
        if i < self.pairs.len() && self.pairs[i].0.same(key) && self.pairs[i].1.same(val) {
            let ghost s0 = self.pairs@;
            self.pairs.remove(i);
            proof {
                assert forall|a: int, b: int| 0 <= a < b < self.pairs@.len() implies #[trigger] pair_lt(self.pairs@[a], self.pairs@[b]) by {
                    if a < i && b < i {
                        assert(pair_lt(s0[a], s0[b]));
                    } else if a < i {
                        assert(pair_lt(s0[a], s0[b + 1]));
                    } else {
                        assert(pair_lt(s0[a + 1], s0[b + 1]));
                    }
                }
                assert forall|p: (K, V)| self@.contains(p) <==> old(self)@.remove(t).contains(p) by {
                    if self.pairs@.contains(p) {
                        let j = choose|j: int| 0 <= j < self.pairs@.len() && self.pairs@[j] == p;
                        if j < i {
                            assert(s0[j] == p);
                            assert(pair_lt(s0[j], s0[i as int]));
                        } else {
                            assert(s0[j + 1] == p);
                            assert(pair_lt(s0[i as int], s0[j + 1]));
                        }
                    }
                    if s0.contains(p) && p != t {
                        let j = choose|j: int| 0 <= j < s0.len() && s0[j] == p;
                        if j < i {
                            assert(self.pairs@[j] == p);
                        } else {
                            assert(j != i);
                            assert(self.pairs@[j - 1] == p);
                        }
                    }
                }
                assert(self@ =~= old(self)@.remove(t));
            }
            true
        } else {
            proof {
                if old(self)@.contains(t) {
                    let j = choose|j: int| 0 <= j < self.pairs@.len() && self.pairs@[j] == t;
                    assert(!pair_lt(self.pairs@[j], t));
                    if j > i {
                        assert(pair_lt(self.pairs@[i as int], self.pairs@[j]));
                    }
                    assert(false);
                }
                assert(self@ =~= old(self)@.remove(t));
            }
            false
        }
    }

    /// Drops every value at `key`.
    pub fn remove_all(&mut self, key: &K)
        requires
            old(self).wf(),
        ensures
            final(self).wf(),
            final(self)@ == old(self)@.filter(|p: (K, V)| p.0 != *key),
    {
        let ghost s0 = self.pairs@;
        let mut kept: Vec<(K, V)> = Vec::new();
        let mut i: usize = 0;
        proof { lemma_ranks_injective::<K>(); }
        while i < self.pairs.len()
            invariant
                self.pairs@ == s0,
                pairs_sorted(s0),
                i <= s0.len(),
                pairs_sorted(kept@),
                forall|a: int| 0 <= a < kept@.len() ==> (#[trigger] kept@[a]).0 != *key,
                forall|a: int, b: int| 0 <= a < kept@.len() && i <= b < s0.len() ==> pair_lt(#[trigger] kept@[a], #[trigger] s0[b]),
                forall|p: (K, V)| kept@.contains(p) <==> (exists|j: int| 0 <= j < i && s0[j] == p && p.0 != *key),
                forall|a: K, b: K| #[trigger] a.rank() == #[trigger] b.rank() ==> a == b,
            decreases s0.len() - i,
        {
            let p = self.pairs[i];
            if !p.0.same(key) {
                let ghost k0 = kept@;
                kept.push(p);
                proof {
                    assert forall|a: int, b: int| 0 <= a < kept@.len() && i + 1 <= b < s0.len() implies pair_lt(#[trigger] kept@[a], #[trigger] s0[b]) by {
                        assert(pair_lt(s0[i as int], s0[b]));
                    }
                    assert forall|q: (K, V)| kept@.contains(q) <==> (exists|j: int| 0 <= j < i + 1 && s0[j] == q && q.0 != *key) by {
                        if kept@.contains(q) && q != p {
                            let a = choose|a: int| 0 <= a < kept@.len() && kept@[a] == q;
                            assert(k0[a] == q);
                            assert(k0.contains(q));
                        }
                        if exists|j: int| 0 <= j < i + 1 && s0[j] == q && q.0 != *key {
                            let j = choose|j: int| 0 <= j < i + 1 && s0[j] == q && q.0 != *key;
                            if j < i {
                                assert(exists|j: int| 0 <= j < i && s0[j] == q && q.0 != *key);
                                assert(k0.contains(q));
                                let a = choose|a: int| 0 <= a < k0.len() && k0[a] == q;
                                assert(kept@[a] == q);
                            } else {
                                assert(kept@[k0.len() as int] == q);
                            }
                        }
                    }
                }
            } else {
                proof {
                    assert forall|q: (K, V)| kept@.contains(q) <==> (exists|j: int| 0 <= j < i + 1 && s0[j] == q && q.0 != *key) by {
                        if exists|j: int| 0 <= j < i + 1 && s0[j] == q && q.0 != *key {
                            let j = choose|j: int| 0 <= j < i + 1 && s0[j] == q && q.0 != *key;
                            assert(j != i);
                        }
                    }
                }
            }
            i = i + 1;
        }
        self.pairs = kept;
        proof {
            assert forall|p: (K, V)| self@.contains(p) <==> old(self)@.filter(|q: (K, V)| q.0 != *key).contains(p) by {
                if s0.contains(p) && p.0 != *key {
                    let j = choose|j: int| 0 <= j < s0.len() && s0[j] == p;
                    assert(exists|j: int| 0 <= j < i && s0[j] == p && p.0 != *key);
                }
            }
            assert(self@ =~= old(self)@.filter(|p: (K, V)| p.0 != *key));
        }
    }

    /// All `(key, value)` pairs, ascending by key and then by value.
    pub fn iter(&self) -> (r: Vec<(K, V)>)
        requires
            self.wf(),
        ensures
            r@ == self.entries(),
            pairs_sorted(r@),
            forall|p: (K, V)| r@.contains(p) <==> self@.contains(p),
    {
        let mut r: Vec<(K, V)> = Vec::new();
        let mut i: usize = 0;
        while i < self.pairs.len()
            invariant
                i <= self.pairs@.len(),
                r@ == self.pairs@.subrange(0, i as int),
            decreases self.pairs@.len() - i,
        {
            r.push(self.pairs[i]);
            i = i + 1;
        }
        assert(r@ =~= self.pairs@);
        r
    }

    /// Builds a map from pairs in any order, with repeats allowed.
    pub fn from_pairs(pairs: &Vec<(K, V)>) -> (r: MMap<K, V>)
        ensures
            r.wf(),
            forall|p: (K, V)| r@.contains(p) <==> pairs@.contains(p),
    {
        let mut r = MMap::new();
        let mut i: usize = 0;
        while i < pairs.len()
            invariant
                i <= pairs@.len(),
                r.wf(),
                forall|p: (K, V)| r@.contains(p) <==> (exists|j: int| 0 <= j < i && pairs@[j] == p),
            decreases pairs@.len() - i,
        {
            r.insert(pairs[i].0, pairs[i].1);
            proof {
                assert forall|p: (K, V)| r@.contains(p) <==> (exists|j: int| 0 <= j < i + 1 && pairs@[j] == p) by {
                    if exists|j: int| 0 <= j < i + 1 && pairs@[j] == p {
                        let j = choose|j: int| 0 <= j < i + 1 && pairs@[j] == p;
                        if j < i {
                            assert(exists|j: int| 0 <= j < i && pairs@[j] == p);
                        }
                    }
                }
            }
            i = i + 1;
        }
        proof {
            assert forall|p: (K, V)| r@.contains(p) <==> pairs@.contains(p) by {
                if pairs@.contains(p) {
                    let j = choose|j: int| 0 <= j < pairs@.len() && pairs@[j] == p;
                    assert(exists|j: int| 0 <= j < i && pairs@[j] == p);
                }
            }
        }
        r
    }

    /// No key is ever mapped to the empty set: a key is present exactly while
    /// some value is stored at it.
    pub proof fn lemma_no_empty_value_sets(&self)
        requires
            self.wf(),
        ensures
            forall|k: K| #[trigger] as_map(self@).contains_key(k) ==> as_map(self@)[k] != Set::<V>::empty(),
    {
        assert forall|k: K| #[trigger] as_map(self@).contains_key(k) implies as_map(self@)[k] != Set::<V>::empty() by {
            let v = choose|v: V| self@.contains((k, v));
            assert(as_map(self@)[k].contains(v));
        }
    }

    /// Rebuilding a map from the pairs it lists gives back the same map, entry
    /// for entry.
    pub proof fn lemma_pairs_round_trip(m: &MMap<K, V>, pairs: Seq<(K, V)>, back: &MMap<K, V>)
        requires
            m.wf(),
            pairs == m.entries(),
            back.wf(),
            forall|p: (K, V)| back@.contains(p) <==> pairs.contains(p),
        ensures
            back@ == m@,
            back.entries() == m.entries(),
    {
        assert(back@ =~= m@) by {
            assert forall|p: (K, V)| back@.contains(p) == m@.contains(p) by {
                assert(m@.contains(p) == m.pairs@.contains(p));
            }
        }
        MMap::lemma_canonical(back, m);
    }

    /// Two well-formed maps holding the same pairs are the same value.
    pub proof fn lemma_canonical(a: &MMap<K, V>, b: &MMap<K, V>)
        requires
            a.wf(),
            b.wf(),
            a@ == b@,
        ensures
            a.entries() == b.entries(),
    {
        assert forall|p: (K, V)| a.pairs@.contains(p) <==> b.pairs@.contains(p) by {
            assert(a@.contains(p) == b@.contains(p));
            assert(a@.contains(p) == a.pairs@.contains(p));
            assert(b@.contains(p) == b.pairs@.contains(p));
        }
        lemma_sorted_unique(a.pairs@, b.pairs@);
    }
}

} // verus!
