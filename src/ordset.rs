use vstd::prelude::*;

use crate::line::{Present, Ranked};
use crate::multimap::{pair_lt, MMap};

verus! {

/// An ordered set, kept as a multimap from each element to the unit value.
#[derive(Clone, Debug, PartialEq, Eq)]
pub struct OrdSet<T> {
    map: MMap<T, Present>,
}

impl<T: Ranked> View for OrdSet<T> {
    type V = Set<T>;

    closed spec fn view(&self) -> Set<T> {
        Set::new(|t: T| self.map@.contains((t, Present)))
    }
}

impl<T: Ranked> OrdSet<T> {
    pub closed spec fn wf(&self) -> bool {
        self.map.wf()
    }

    /// The elements in ascending order.
    pub closed spec fn elements(&self) -> Seq<T> {
        self.map.entries().map_values(|p: (T, Present)| p.0)
    }

    pub fn new() -> (r: OrdSet<T>)
        ensures
            r.wf(),
            r@ == Set::<T>::empty(),
    {
        let r = OrdSet { map: MMap::new() };
        assert(r@ =~= Set::<T>::empty());
        r
    }

    pub fn contains(&self, t: &T) -> (r: bool)
        requires
            self.wf(),
        ensures
            r == self@.contains(*t),
    {
        self.map.contains(t, &Present)
    }

    /// Adds `t`; returns whether it was absent.
    pub fn insert(&mut self, t: T) -> (r: bool)
        requires
            old(self).wf(),
        ensures
            final(self).wf(),
            r == !old(self)@.contains(t),
            final(self)@ == old(self)@.insert(t),
    {
        let r = !self.map.contains(&t, &Present);
        self.map.insert(t, Present);
        assert(self@ =~= old(self)@.insert(t));
        r
    }

    /// Takes `t` out; returns whether it was present.
    pub fn remove(&mut self, t: &T) -> (r: bool)
        requires
            old(self).wf(),
        ensures
            final(self).wf(),
            r == old(self)@.contains(*t),
            final(self)@ == old(self)@.remove(*t),
    {
        let r = self.map.remove(t, &Present);
        assert(self@ =~= old(self)@.remove(*t));
        r
    }

    pub proof fn lemma_elements(&self)
        requires
            self.wf(),
        ensures
            self.elements().no_duplicates(),
            forall|t: T| self.elements().contains(t) <==> self@.contains(t),
    {
        self.map.lemma_entries();
        let e = self.map.entries();
        assert forall|a: int, b: int| 0 <= a < b < self.elements().len() implies self.elements()[a] != self.elements()[b] by {
            assert(pair_lt(e[a], e[b]));
        }
        assert forall|t: T| self.elements().contains(t) <==> self@.contains(t) by {
            if self.elements().contains(t) {
                let a = choose|a: int| 0 <= a < self.elements().len() && self.elements()[a] == t;
                assert(e[a] == (t, Present));
                assert(e.contains((t, Present)));
            }
            if self@.contains(t) {
                assert(self.map@.contains((t, Present)));
                let a = choose|a: int| 0 <= a < e.len() && e[a] == (t, Present);
                assert(self.elements()[a] == t);
            }
        }
    }

    /// Two well-formed sets with the same elements hold them in the same order.
    pub proof fn lemma_canonical(a: &OrdSet<T>, b: &OrdSet<T>)
        requires
            a.wf(),
            b.wf(),
            a@ == b@,
        ensures
            a.elements() == b.elements(),
    {
        assert(a.map@ =~= b.map@) by {
            assert forall|p: (T, Present)| a.map@.contains(p) == b.map@.contains(p) by {
                assert(p == (p.0, Present));
                assert(a@.contains(p.0) == b@.contains(p.0));
                assert(a@.contains(p.0) == a.map@.contains((p.0, Present)));
                assert(b@.contains(p.0) == b.map@.contains((p.0, Present)));
            }
        }
        MMap::lemma_canonical(&a.map, &b.map);
    }

    /// Builds a set from elements in any order, with repeats allowed.
    pub fn from_vec(v: &Vec<T>) -> (r: OrdSet<T>)
        ensures
            r.wf(),
            forall|t: T| r@.contains(t) <==> v@.contains(t),
    {
        let mut r = OrdSet::new();
        let mut i: usize = 0;
        while i < v.len()
            invariant
                i <= v@.len(),
                r.wf(),
                forall|t: T| r@.contains(t) <==> exists|j: int| 0 <= j < i && v@[j] == t,
            decreases v@.len() - i,
        {
            r.insert(v[i]);
            proof {
                assert forall|t: T| r@.contains(t) <==> exists|j: int| 0 <= j < i + 1 && v@[j] == t by {
                    if exists|j: int| 0 <= j < i + 1 && v@[j] == t {
                        let j = choose|j: int| 0 <= j < i + 1 && v@[j] == t;
                        if j < i {
                            assert(exists|j: int| 0 <= j < i && v@[j] == t);
                        }
                    }
                }
            }
            i = i + 1;
        }
        assert forall|t: T| r@.contains(t) <==> v@.contains(t) by {
            if v@.contains(t) {
                let j = choose|j: int| 0 <= j < v@.len() && v@[j] == t;
                assert(exists|j: int| 0 <= j < i && v@[j] == t);
            }
        }
        r
    }

    /// The elements in ascending order.
    pub fn to_vec(&self) -> (r: Vec<T>)
        requires
            self.wf(),
        ensures
            r@ == self.elements(),
            forall|i: int, j: int| 0 <= i < j < r@.len() ==> #[trigger] r@[i].rank() < #[trigger] r@[j].rank(),
            forall|t: T| r@.contains(t) <==> self@.contains(t),
    {
        let pairs = self.map.iter();
        proof { self.map.lemma_entries(); }
        let mut r: Vec<T> = Vec::new();
        let mut i: usize = 0;
        while i < pairs.len()
            invariant
                i <= pairs@.len(),
                r@ == pairs@.subrange(0, i as int).map_values(|p: (T, Present)| p.0),
            decreases pairs@.len() - i,
        {
            r.push(pairs[i].0);
            proof {
                assert(pairs@.subrange(0, i + 1).map_values(|p: (T, Present)| p.0) =~= pairs@.subrange(0, i as int).map_values(|p: (T, Present)| p.0).push(pairs@[i as int].0));
            }
            i = i + 1;
        }
        assert(pairs@.subrange(0, i as int) =~= pairs@);
        proof {
            self.map.lemma_entries();
            assert forall|a: int, b: int| 0 <= a < b < r@.len() implies #[trigger] r@[a].rank() < #[trigger] r@[b].rank() by {
                assert(pair_lt(pairs@[a], pairs@[b]));
            }
            assert forall|t: T| r@.contains(t) <==> self@.contains(t) by {
                if r@.contains(t) {
                    let a = choose|a: int| 0 <= a < r@.len() && r@[a] == t;
                    assert(pairs@[a] == (t, Present));
                    assert(pairs@.contains((t, Present)));
                }
                if self@.contains(t) {
                    assert(self.map@.contains((t, Present)));
                    let a = choose|a: int| 0 <= a < pairs@.len() && pairs@[a] == (t, Present);
                    assert(r@[a] == t);
                }
            }
        }
        r
    }
}

} // verus!
