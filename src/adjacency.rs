use vstd::prelude::*;

use crate::graph::GraphRef;
use crate::line::{LineId, PatchId};

verus! {

/// The line `k` of the patch being built.
pub open spec fn node_id(k: int) -> LineId {
    LineId { patch: PatchId(0), line: k as u64 }
}

/// A graph held in memory as a list of edges; its nodes are the lines `0..n`
/// of the patch being built, and line `k` is node `k`.
pub struct ListGraph {
    ids: Vec<LineId>,
    edges: Vec<(LineId, LineId)>,
}

impl ListGraph {
    /// The number of nodes.
    pub closed spec fn size(&self) -> nat {
        self.ids@.len()
    }

    /// Builds the graph with the given edges, each a pair of node numbers; its
    /// nodes are `0` up to the largest number named.
    pub fn from_edges(edges: &Vec<(u64, u64)>) -> (r: ListGraph)
        requires
            forall|j: int| 0 <= j < edges@.len() ==> (#[trigger] edges@[j]).0 < u64::MAX && edges@[j].1 < u64::MAX,
        ensures
            r.graph_wf(),
            forall|j: int| 0 <= j < edges@.len() ==> (#[trigger] edges@[j]).0 < r.size() && edges@[j].1 < r.size(),
            r.size() == 0 || exists|j: int| 0 <= j < edges@.len() && (edges@[j].0 == r.size() - 1 || edges@[j].1 == r.size() - 1),
            r.node_seq() == Seq::new(r.size(), |i: int| node_id(i)),
            forall|u: LineId, v: LineId| #[trigger] r.edge(u, v) <==> exists|a: int| 0 <= a < edges@.len()
                && u == node_id(edges@[a].0 as int) && v == node_id(edges@[a].1 as int),
            forall|u: u64, v: u64| #[trigger] r.edge(node_id(u as int), node_id(v as int)) <==> edges@.contains((u, v)),
    {
        let mut n: u64 = 0;
        let mut j: usize = 0;
        while j < edges.len()
            invariant
                j <= edges@.len(),
                forall|j: int| 0 <= j < edges@.len() ==> (#[trigger] edges@[j]).0 < u64::MAX && edges@[j].1 < u64::MAX,
                forall|k: int| 0 <= k < j ==> (#[trigger] edges@[k]).0 < n && edges@[k].1 < n,
                n == 0 || exists|k: int| 0 <= k < j && (edges@[k].0 == n - 1 || edges@[k].1 == n - 1),
            decreases edges@.len() - j,
        {
            let (u, v) = edges[j];
            if u >= n {
                n = u + 1;
            }
            if v >= n {
                n = v + 1;
            }
            j = j + 1;
        }
        let mut ids: Vec<LineId> = Vec::new();
        let mut k: u64 = 0;
        while k < n
            invariant
                k <= n,
                ids@.len() == k,
                forall|i: int| 0 <= i < k ==> #[trigger] ids@[i] == node_id(i),
            decreases n - k,
        {
            ids.push(LineId { patch: PatchId(0), line: k });
            k = k + 1;
        }
        let mut list: Vec<(LineId, LineId)> = Vec::new();
        let mut j: usize = 0;
        while j < edges.len()
            invariant
                j <= edges@.len(),
                list@.len() == j,
                forall|k: int| 0 <= k < j ==> #[trigger] list@[k] == (node_id(edges@[k].0 as int), node_id(edges@[k].1 as int)),
                ids@.len() == n,
                forall|i: int| 0 <= i < n ==> #[trigger] ids@[i] == node_id(i),
                forall|k: int| 0 <= k < edges@.len() ==> (#[trigger] edges@[k]).0 < n && edges@[k].1 < n,
            decreases edges@.len() - j,
        {
            let (u, v) = edges[j];
            list.push((LineId { patch: PatchId(0), line: u }, LineId { patch: PatchId(0), line: v }));
            j = j + 1;
        }
        let r = ListGraph { ids, edges: list };
        proof {
            assert forall|a: int| 0 <= a < list@.len() implies r.known((#[trigger] list@[a]).0) && r.known(list@[a].1) by {
                let (x, y) = (edges@[a].0 as int, edges@[a].1 as int);
                assert(0 <= x < n && 0 <= y < n);
                assert(r.ids@[x] == list@[a].0);
                assert(r.ids@[y] == list@[a].1);
                assert(r.known(list@[a].0));
                assert(r.known(list@[a].1));
            }
            assert(r.node_seq() =~= Seq::new(r.size(), |i: int| node_id(i)));
            assert forall|u: LineId, v: LineId| #[trigger] r.edge(u, v) <==> exists|a: int| 0 <= a < edges@.len()
                && u == node_id(edges@[a].0 as int) && v == node_id(edges@[a].1 as int) by {
                if r.edge(u, v) {
                    let a = choose|a: int| 0 <= a < list@.len() && list@[a] == (u, v);
                    assert(list@[a] == (node_id(edges@[a].0 as int), node_id(edges@[a].1 as int)));
                }
                if exists|a: int| 0 <= a < edges@.len() && u == node_id(edges@[a].0 as int) && v == node_id(edges@[a].1 as int) {
                    let a = choose|a: int| 0 <= a < edges@.len() && u == node_id(edges@[a].0 as int) && v == node_id(edges@[a].1 as int);
                    assert(list@[a] == (u, v));
                    assert(list@.contains((u, v)));
                }
            }
            assert forall|u: u64, v: u64| #[trigger] r.edge(node_id(u as int), node_id(v as int)) <==> edges@.contains((u, v)) by {
                if edges@.contains((u, v)) {
                    let a = choose|a: int| 0 <= a < edges@.len() && edges@[a] == (u, v);
                    assert(list@[a] == (node_id(u as int), node_id(v as int)));
                }
                if r.edge(node_id(u as int), node_id(v as int)) {
                    let a = choose|a: int| 0 <= a < list@.len() && list@[a] == (node_id(u as int), node_id(v as int));
                    assert(edges@[a] == (u, v));
                }
            }
        }
        r
    }

    spec fn known(&self, x: LineId) -> bool {
        exists|i: int| 0 <= i < self.ids@.len() && self.ids@[i] == x
    }
}

impl GraphRef for ListGraph {
    closed spec fn node_seq(&self) -> Seq<LineId> {
        self.ids@
    }

    closed spec fn edge(&self, u: LineId, v: LineId) -> bool {
        self.edges@.contains((u, v))
    }

    closed spec fn graph_wf(&self) -> bool {
        &&& self.ids@.len() <= u64::MAX
        &&& forall|i: int| 0 <= i < self.ids@.len() ==> #[trigger] self.ids@[i] == node_id(i)
        &&& forall|a: int| 0 <= a < self.edges@.len() ==> self.known((#[trigger] self.edges@[a]).0) && self.known(self.edges@[a].1)
    }

    proof fn lemma_graph_wf(&self) {
        assert forall|a: int, b: int| 0 <= a < b < self.ids@.len() implies self.ids@[a] != self.ids@[b] by {
            assert(self.ids@[a] == node_id(a));
            assert(self.ids@[b] == node_id(b));
        }
        assert forall|u: LineId, v: LineId| #[trigger] self.edge(u, v) implies self.ids@.contains(u) && self.ids@.contains(v) by {
            let a = choose|a: int| 0 <= a < self.edges@.len() && self.edges@[a] == (u, v);
            assert(self.known(self.edges@[a].0));
            assert(self.known(self.edges@[a].1));
        }
    }

    fn nodes(&self) -> (r: Vec<LineId>) {
        let mut r: Vec<LineId> = Vec::new();
        let mut i: usize = 0;
        while i < self.ids.len()
            invariant
                i <= self.ids@.len(),
                r@ == self.ids@.subrange(0, i as int),
            decreases self.ids@.len() - i,
        {
            r.push(self.ids[i]);
            i = i + 1;
        }
        assert(r@ =~= self.ids@);
        r
    }

    fn out_neighbors(&self, u: &LineId) -> (r: Vec<LineId>) {
        let mut r: Vec<LineId> = Vec::new();
        let mut i: usize = 0;
        while i < self.edges.len()
            invariant
                i <= self.edges@.len(),
                forall|v: LineId| r@.contains(v) <==> exists|a: int| 0 <= a < i && self.edges@[a] == (*u, v),
            decreases self.edges@.len() - i,
        {
            let (a, b) = self.edges[i];
            let ghost r0 = r@;
            if a == *u {
                r.push(b);
            }
            proof {
                assert forall|v: LineId| r@.contains(v) <==> exists|a: int| 0 <= a < i + 1 && self.edges@[a] == (*u, v) by {
                    if r@.contains(v) && !r0.contains(v) {
                        assert(r@[r0.len() as int] == v);
                    }
                    if r0.contains(v) {
                        let k = choose|k: int| 0 <= k < r0.len() && r0[k] == v;
                        assert(r@[k] == v);
                    }
                    if exists|a: int| 0 <= a < i + 1 && self.edges@[a] == (*u, v) {
                        let k = choose|k: int| 0 <= k < i + 1 && self.edges@[k] == (*u, v);
                        if k == i {
                            assert(r@[r@.len() - 1] == v);
                        }
                    }
                }
            }
            i = i + 1;
        }
        proof {
            assert forall|v: LineId| r@.contains(v) <==> self.edge(*u, v) by {
                if self.edges@.contains((*u, v)) {
                    let k = choose|k: int| 0 <= k < self.edges@.len() && self.edges@[k] == (*u, v);
                }
            }
        }
        r
    }

    fn in_neighbors(&self, u: &LineId) -> (r: Vec<LineId>) {
        let mut r: Vec<LineId> = Vec::new();
        let mut i: usize = 0;
        while i < self.edges.len()
            invariant
                i <= self.edges@.len(),
                forall|v: LineId| r@.contains(v) <==> exists|a: int| 0 <= a < i && self.edges@[a] == (v, *u),
            decreases self.edges@.len() - i,
        {
            let (a, b) = self.edges[i];
            let ghost r0 = r@;
            if b == *u {
                r.push(a);
            }
            proof {
                assert forall|v: LineId| r@.contains(v) <==> exists|a: int| 0 <= a < i + 1 && self.edges@[a] == (v, *u) by {
                    if r@.contains(v) && !r0.contains(v) {
                        assert(r@[r0.len() as int] == v);
                    }
                    if r0.contains(v) {
                        let k = choose|k: int| 0 <= k < r0.len() && r0[k] == v;
                        assert(r@[k] == v);
                    }
                    if exists|a: int| 0 <= a < i + 1 && self.edges@[a] == (v, *u) {
                        let k = choose|k: int| 0 <= k < i + 1 && self.edges@[k] == (v, *u);
                        if k == i {
                            assert(r@[r@.len() - 1] == v);
                        }
                    }
                }
            }
            i = i + 1;
        }
        proof {
            assert forall|v: LineId| r@.contains(v) <==> self.edge(v, *u) by {
                if self.edges@.contains((v, *u)) {
                    let k = choose|k: int| 0 <= k < self.edges@.len() && self.edges@[k] == (v, *u);
                }
            }
        }
        r
    }
}

} // verus!
