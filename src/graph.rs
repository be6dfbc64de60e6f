use vstd::prelude::*;
use vstd::seq_lib::seq_to_set_is_finite;
use vstd::set_lib::lemma_len_subset;

use crate::line::LineId;
use crate::ordset::OrdSet;

verus! {

/// A read-only directed graph over lines.
pub trait GraphRef {
    /// The nodes, each once.
    spec fn node_seq(&self) -> Seq<LineId>;

    /// Whether there is an edge from `u` to `v`.
    spec fn edge(&self, u: LineId, v: LineId) -> bool;

    spec fn graph_wf(&self) -> bool;

    /// A well-formed graph lists no node twice, and its edges join nodes.
    proof fn lemma_graph_wf(&self)
        requires
            self.graph_wf(),
        ensures
            self.node_seq().no_duplicates(),
            forall|u: LineId, v: LineId| #[trigger] self.edge(u, v) ==> self.node_seq().contains(u) && self.node_seq().contains(v),
    ;

    fn nodes(&self) -> (r: Vec<LineId>)
        requires
            self.graph_wf(),
        ensures
            r@ == self.node_seq(),
    ;

    /// The heads of the edges out of `u`.
    fn out_neighbors(&self, u: &LineId) -> (r: Vec<LineId>)
        requires
            self.graph_wf(),
        ensures
            forall|v: LineId| r@.contains(v) <==> self.edge(*u, v),
    ;

    /// The tails of the edges into `u`.
    fn in_neighbors(&self, u: &LineId) -> (r: Vec<LineId>)
        requires
            self.graph_wf(),
        ensures
            forall|v: LineId| r@.contains(v) <==> self.edge(v, *u),
    ;
}

pub open spec fn has_edge<G: GraphRef>(g: &G, u: LineId, v: LineId) -> bool {
    g.edge(u, v)
}

/// Each node of `p` has an edge to the next one.
pub open spec fn is_path<G: GraphRef>(g: &G, p: Seq<LineId>) -> bool {
    forall|i: int| 0 <= i < p.len() - 1 ==> #[trigger] has_edge(g, p[i], p[i + 1])
}

/// A path of at least one edge that ends where it starts.
pub open spec fn is_cycle<G: GraphRef>(g: &G, p: Seq<LineId>) -> bool {
    &&& p.len() >= 2
    &&& p[0] == p[p.len() - 1]
    &&& is_path(g, p)
}

pub open spec fn has_cycle<G: GraphRef>(g: &G) -> bool {
    exists|p: Seq<LineId>| is_cycle(g, p)
}

/// `s` lists every node once, and every edge goes forward in it.
pub open spec fn is_top_order<G: GraphRef>(g: &G, s: Seq<LineId>) -> bool {
    &&& s.no_duplicates()
    &&& forall|x: LineId| s.contains(x) <==> g.node_seq().contains(x)
    &&& forall|i: int, j: int| 0 <= i < s.len() && 0 <= j < s.len() && #[trigger] has_edge(g, s[i], s[j]) ==> i < j
}

/// The bookkeeping of a depth-first search: the nodes entered, those entered
/// and not yet left, and the nodes left, in the order they were left.
struct DfsState {
    visited: OrdSet<LineId>,
    visiting: OrdSet<LineId>,
    post: Vec<LineId>,
    path: Ghost<Seq<LineId>>,
}

impl DfsState {
    spec fn inv<G: GraphRef>(&self, g: &G) -> bool {
        &&& self.visited.wf()
        &&& self.visiting.wf()
        &&& self.visited@.subset_of(g.node_seq().to_set())
        &&& forall|x: LineId| #[trigger] self.visited@.contains(x) <==> (self.post@.contains(x) || self.visiting@.contains(x))
        &&& forall|x: LineId| !(#[trigger] self.post@.contains(x) && self.visiting@.contains(x))
        &&& self.post@.no_duplicates()
        &&& forall|i: int, v: LineId| 0 <= i < self.post@.len() && #[trigger] has_edge(g, self.post@[i], v)
            ==> self.post@.subrange(0, i).contains(v)
        &&& forall|x: LineId| #[trigger] self.visiting@.contains(x) <==> self.path@.contains(x)
        &&& self.path@.no_duplicates()
        &&& is_path(g, self.path@)
    }
}

/// Leaves `u`, the last node of the path, after every node reachable from it;
/// `true` when an edge back into the path shows a cycle.
fn visit<G: GraphRef>(g: &G, st: &mut DfsState, u: LineId) -> (cycle: bool)
    requires
        g.graph_wf(),
        old(st).inv(g),
        old(st).path@.len() > 0,
        old(st).path@.last() == u,
    ensures
        cycle ==> has_cycle(g),
        !cycle ==> {
            &&& final(st).inv(g)
            &&& final(st).path@ == old(st).path@.drop_last()
            &&& old(st).post@.is_prefix_of(final(st).post@)
            &&& final(st).post@.contains(u)
            &&& old(st).visited@.subset_of(final(st).visited@)
        },
    decreases g.node_seq().to_set().len() - old(st).visited@.len(),
{
    let ghost st0 = *st;
    proof {
        g.lemma_graph_wf();
        seq_to_set_is_finite(g.node_seq());
        lemma_len_subset(st0.visited@, g.node_seq().to_set());
        assert(st0.path@.contains(u));
    }
    let nbrs = g.out_neighbors(&u);
    let mut i: usize = 0;
    while i < nbrs.len()
        invariant
            g.graph_wf(),
            st.inv(g),
            forall|v: LineId| nbrs@.contains(v) <==> g.edge(u, v),
            i <= nbrs@.len(),
            st.path@ == st0.path@,
            st0.post@.is_prefix_of(st.post@),
            st0.visited@.subset_of(st.visited@),
            st0.path@.len() > 0,
            st0.path@.last() == u,
            forall|k: int| 0 <= k < i ==> st.post@.contains(#[trigger] nbrs@[k]),
            g.node_seq().to_set().finite(),
            st0.visited@.len() <= g.node_seq().to_set().len(),
            st0.visited@.finite(),
            st0 == *old(st),
        decreases nbrs@.len() - i,
    {
        let v = nbrs[i];
        proof {
            assert(has_edge(g, u, v)) by {
                assert(nbrs@.contains(nbrs@[i as int]));
            }
        }
        if st.visiting.contains(&v) {
            proof {
                let p = st.path@;
                assert(p.contains(v));
                let k = choose|k: int| 0 <= k < p.len() && p[k] == v;
                let c = p.subrange(k, p.len() as int).push(v);
                assert(is_cycle(g, c)) by {
                    assert forall|j: int| 0 <= j < c.len() - 1 implies #[trigger] has_edge(g, c[j], c[j + 1]) by {
                        if j < c.len() - 2 {
                            assert(has_edge(g, p[k + j], p[k + j + 1]));
                        }
                    }
                }
            }
            return true;
        } else if !st.visited.contains(&v) {
            let ghost before = *st;
            st.visited.insert(v);
            st.visiting.insert(v);
            proof {
                st.path@ = st.path@.push(v);
                g.lemma_graph_wf();
                assert(g.node_seq().contains(v));
                assert(g.node_seq().to_set().contains(v));
                lemma_len_subset(before.visited@, g.node_seq().to_set());
                lemma_len_subset(st0.visited@, before.visited@);
                assert(st.visited@ == before.visited@.insert(v));
                assert(st.visited@.len() == before.visited@.len() + 1);
                assert(st.visited@.subset_of(g.node_seq().to_set()));
                lemma_len_subset(st.visited@, g.node_seq().to_set());
                assert(0 <= g.node_seq().to_set().len() - st.visited@.len() < g.node_seq().to_set().len() - st0.visited@.len());
                assert forall|x: LineId| #[trigger] st.visiting@.contains(x) <==> st.path@.contains(x) by {
                    if st.path@.contains(x) && x != v {
                        let j = choose|j: int| 0 <= j < st.path@.len() && st.path@[j] == x;
                        assert(before.path@[j] == x);
                    }
                    if before.path@.contains(x) {
                        let j = choose|j: int| 0 <= j < before.path@.len() && before.path@[j] == x;
                        assert(st.path@[j] == x);
                    }
                    if x == v {
                        assert(st.path@[st.path@.len() - 1] == x);
                    }
                }
                assert(is_path(g, st.path@)) by {
                    assert forall|j: int| 0 <= j < st.path@.len() - 1 implies #[trigger] has_edge(g, st.path@[j], st.path@[j + 1]) by {
                        if j < st.path@.len() - 2 {
                            assert(has_edge(g, before.path@[j], before.path@[j + 1]));
                        }
                    }
                }
                assert(st.path@.no_duplicates()) by {
                    assert(!before.path@.contains(v));
                }
            }
            let c = visit(g, st, v);
            if c {
                return true;
            }
            proof {
                assert(st.path@ =~= st0.path@);
            }
        }
        proof {
            assert forall|k: int| 0 <= k < i + 1 implies st.post@.contains(#[trigger] nbrs@[k]) by {
                if k < i {
                }
            }
        }
        i = i + 1;
    }
    let ghost before = *st;
    st.post.push(u);
    st.visiting.remove(&u);
    proof {
        st.path@ = st.path@.drop_last();
        let p0 = before.path@;
        assert(!before.post@.contains(u));
        assert forall|j: int, v: LineId| 0 <= j < st.post@.len() && #[trigger] has_edge(g, st.post@[j], v)
            implies st.post@.subrange(0, j).contains(v) by {
            if j < before.post@.len() {
                assert(st.post@.subrange(0, j) =~= before.post@.subrange(0, j));
            } else {
                assert(nbrs@.contains(v));
                let k = choose|k: int| 0 <= k < nbrs@.len() && nbrs@[k] == v;
                assert(before.post@.contains(nbrs@[k]));
                assert(st.post@.subrange(0, j) =~= before.post@);
            }
        }
        assert forall|x: LineId| #[trigger] st.visiting@.contains(x) <==> st.path@.contains(x) by {
            if st.path@.contains(x) {
                let j = choose|j: int| 0 <= j < st.path@.len() && st.path@[j] == x;
                assert(p0[j] == x);
                assert(p0[p0.len() - 1] == u);
            }
            if p0.contains(x) && x != u {
                let j = choose|j: int| 0 <= j < p0.len() && p0[j] == x;
                assert(j != p0.len() - 1);
                assert(st.path@[j] == x);
            }
        }
        assert(is_path(g, st.path@)) by {
            assert forall|j: int| 0 <= j < st.path@.len() - 1 implies #[trigger] has_edge(g, st.path@[j], st.path@[j + 1]) by {
                assert(has_edge(g, p0[j], p0[j + 1]));
            }
        }
        assert(st0.post@.is_prefix_of(st.post@));
        assert(st.post@[st.post@.len() - 1] == u);
        assert forall|x: LineId| #[trigger] st.visited@.contains(x) <==> (st.post@.contains(x) || st.visiting@.contains(x)) by {
            if x == u {
                assert(st.post@[st.post@.len() - 1] == u);
            }
            if st.post@.contains(x) && x != u {
                let j = choose|j: int| 0 <= j < st.post@.len() && st.post@[j] == x;
                assert(before.post@[j] == x);
            }
            if before.post@.contains(x) {
                let j = choose|j: int| 0 <= j < before.post@.len() && before.post@[j] == x;
                assert(st.post@[j] == x);
            }
        }
        assert forall|x: LineId| !(#[trigger] st.post@.contains(x) && st.visiting@.contains(x)) by {
            if st.post@.contains(x) && x != u {
                let j = choose|j: int| 0 <= j < st.post@.len() && st.post@[j] == x;
                assert(before.post@[j] == x);
                assert(before.post@.contains(x));
                assert(!before.visiting@.contains(x));
            }
        }
    }
    false
}

/// The nodes in an order in which every edge goes forward, or `None` when the
/// graph has a cycle. Roots are taken in the order of `nodes`, and the result
/// is the reverse of the order in which a depth-first search leaves the nodes.
pub fn top_sort<G: GraphRef>(g: &G) -> (r: Option<Vec<LineId>>)
    requires
        g.graph_wf(),
    ensures
        r matches Some(s) ==> is_top_order(g, s@),
        r is None ==> has_cycle(g),
{
    let nodes = g.nodes();
    let mut st = DfsState {
        visited: OrdSet::new(),
        visiting: OrdSet::new(),
        post: Vec::new(),
        path: Ghost(Seq::empty()),
    };
    proof {
        g.lemma_graph_wf();
        assert(st.visited@.subset_of(g.node_seq().to_set()));
    }
    let mut i: usize = 0;
    while i < nodes.len()
        invariant
            g.graph_wf(),
            nodes@ == g.node_seq(),
            i <= nodes@.len(),
            st.inv(g),
            st.path@ == Seq::<LineId>::empty(),
            forall|k: int| 0 <= k < i ==> st.visited@.contains(#[trigger] nodes@[k]),
        decreases nodes@.len() - i,
    {
        let u = nodes[i];
        if !st.visited.contains(&u) {
            let ghost before = st;
            st.visited.insert(u);
            st.visiting.insert(u);
            proof {
                st.path@ = seq![u];
                assert(nodes@.contains(nodes@[i as int]));
                assert forall|x: LineId| #[trigger] st.visiting@.contains(x) <==> st.path@.contains(x) by {
                    if x == u {
                        assert(st.path@[0] == u);
                    }
                }
                assert(is_path(g, st.path@));
            }
            if visit(g, &mut st, u) {
                return None;
            }
            proof {
                assert(st.path@ =~= Seq::<LineId>::empty());
            }
        }
        i = i + 1;
    }
    let n = st.post.len();
    let mut out: Vec<LineId> = Vec::new();
    let mut k: usize = 0;
    while k < n
        invariant
            n == st.post@.len(),
            k <= n,
            out@.len() == k,
            forall|j: int| 0 <= j < k ==> out@[j] == st.post@[n - 1 - j],
        decreases n - k,
    {
        out.push(st.post[n - 1 - k]);
        k = k + 1;
    }
    proof {
        g.lemma_graph_wf();
        let post = st.post@;
        assert forall|x: LineId| out@.contains(x) <==> g.node_seq().contains(x) by {
            if g.node_seq().contains(x) {
                let a = choose|a: int| 0 <= a < nodes@.len() && nodes@[a] == x;
                assert(st.visited@.contains(x));
                assert(!st.visiting@.contains(x));
                let b = choose|b: int| 0 <= b < post.len() && post[b] == x;
                assert(out@[n - 1 - b] == x);
            }
            if out@.contains(x) {
                let a = choose|a: int| 0 <= a < out@.len() && out@[a] == x;
                assert(post.contains(post[n - 1 - a]));
                assert(st.visited@.contains(x));
                assert(g.node_seq().to_set().contains(x));
            }
        }
        assert(out@.no_duplicates()) by {
            assert forall|a: int, b: int| 0 <= a < out@.len() && 0 <= b < out@.len() && a != b implies out@[a] != out@[b] by {
                assert(post[n - 1 - a] != post[n - 1 - b]);
            }
        }
        assert forall|a: int, b: int| 0 <= a < out@.len() && 0 <= b < out@.len() && #[trigger] has_edge(g, out@[a], out@[b]) implies a < b by {
            let (pa, pb) = (n - 1 - a, n - 1 - b);
            assert(has_edge(g, post[pa], post[pb]));
            assert(post.subrange(0, pa).contains(post[pb]));
            let c = choose|c: int| 0 <= c < pa && post.subrange(0, pa)[c] == post[pb];
            assert(post[c] == post[pb]);
        }
    }
    Some(out)
}

/// A graph with a topological order has no cycle.
pub proof fn lemma_top_order_acyclic<G: GraphRef>(g: &G, s: Seq<LineId>)
    requires
        g.graph_wf(),
        is_top_order(g, s),
    ensures
        !has_cycle(g),
{
    g.lemma_graph_wf();
    if has_cycle(g) {
        let p = choose|p: Seq<LineId>| is_cycle(g, p);
        let pos = |x: LineId| choose|i: int| 0 <= i < s.len() && s[i] == x;
        assert forall|j: int| 0 <= j < p.len() implies s.contains(#[trigger] p[j]) by {
            if j < p.len() - 1 {
                assert(has_edge(g, p[j], p[j + 1]));
            } else {
                let i = j - 1;
                assert(has_edge(g, p[i], p[i + 1]));
            }
        }
        assert forall|j: int| 0 < j < p.len() implies pos(p[0]) < #[trigger] pos(p[j]) by {
            lemma_positions_increase(g, s, p, j);
        }
        assert(pos(p[0]) < pos(p[p.len() - 1]));
    }
}

proof fn lemma_positions_increase<G: GraphRef>(g: &G, s: Seq<LineId>, p: Seq<LineId>, j: int)
    requires
        is_top_order(g, s),
        is_path(g, p),
        0 < j < p.len(),
        forall|k: int| 0 <= k < p.len() ==> s.contains(#[trigger] p[k]),
    ensures
        (choose|i: int| 0 <= i < s.len() && s[i] == p[0]) < (choose|i: int| 0 <= i < s.len() && s[i] == p[j]),
    decreases j,
{
    let a = choose|i: int| 0 <= i < s.len() && s[i] == p[j - 1];
    let b = choose|i: int| 0 <= i < s.len() && s[i] == p[j];
    assert(s.contains(p[j - 1]));
    assert(s.contains(p[j]));
    let i = j - 1;
    assert(has_edge(g, p[i], p[i + 1]));
    assert(has_edge(g, s[a], s[b]));
    if j > 1 {
        lemma_positions_increase(g, s, p, j - 1);
    }
}

/// Each node of `s` has an edge to the next one: `s` is a Hamiltonian path
/// when it also lists every node once.
pub open spec fn is_chain<G: GraphRef>(g: &G, s: Seq<LineId>) -> bool {
    forall|i: int| 0 <= i < s.len() - 1 ==> #[trigger] has_edge(g, s[i], s[i + 1])
}

/// The one order of the nodes that every edge respects, where there is exactly
/// one: that is the case when the graph is acyclic and each node of its
/// topological order has an edge to the next.
pub fn linear_order<G: GraphRef>(g: &G) -> (r: Option<Vec<LineId>>)
    requires
        g.graph_wf(),
    ensures
        r matches Some(s) ==> is_top_order(g, s@) && is_chain(g, s@),
        r is None ==> !exists|s: Seq<LineId>| is_top_order(g, s) && is_chain(g, s),
{
    match top_sort(g) {
        None => {
            proof {
                if exists|s: Seq<LineId>| is_top_order(g, s) && is_chain(g, s) {
                    let s = choose|s: Seq<LineId>| is_top_order(g, s) && is_chain(g, s);
                    lemma_top_order_acyclic(g, s);
                }
            }
            None
        }
        Some(top) => {
            let mut i: usize = 0;
            while i < top.len() && i < top.len() - 1
                invariant
                    g.graph_wf(),
                    is_top_order(g, top@),
                    i <= top@.len(),
                    forall|k: int| 0 <= k < i && k < top@.len() - 1 ==> #[trigger] has_edge(g, top@[k], top@[k + 1]),
                decreases top@.len() - i,
            {
                let next = g.out_neighbors(&top[i]);
                if !contains_line(&next, &top[i + 1]) {
                    proof {
                        assert(!has_edge(g, top@[i as int], top@[i + 1]));
                        if exists|s: Seq<LineId>| is_top_order(g, s) && is_chain(g, s) {
                            let s = choose|s: Seq<LineId>| is_top_order(g, s) && is_chain(g, s);
                            lemma_chain_unique(g, s, top@);
                        }
                    }
                    return None;
                }
                i = i + 1;
            }
            Some(top)
        }
    }
}

/// Whether `x` is in `v`.
pub(crate) fn contains_line(v: &Vec<LineId>, x: &LineId) -> (r: bool)
    ensures
        r == v@.contains(*x),
{
    let mut i: usize = 0;
    while i < v.len()
        invariant
            i <= v@.len(),
            forall|k: int| 0 <= k < i ==> v@[k] != *x,
        decreases v@.len() - i,
    {
        if v[i] == *x {
            return true;
        }
        i = i + 1;
    }
    false
}

/// A topological order that is a Hamiltonian path is the only topological order.
pub proof fn lemma_chain_unique<G: GraphRef>(g: &G, s: Seq<LineId>, t: Seq<LineId>)
    requires
        g.graph_wf(),
        is_top_order(g, s),
        is_chain(g, s),
        is_top_order(g, t),
    ensures
        s == t,
{
    g.lemma_graph_wf();
    s.unique_seq_to_set();
    t.unique_seq_to_set();
    assert(s.to_set() =~= t.to_set());
    let n = s.len() as int;
    assert(t.len() == n);
    let f = |i: int| choose|k: int| 0 <= k < t.len() && t[k] == s[i];
    assert forall|i: int| 0 <= i < n implies 0 <= #[trigger] f(i) < n && t[f(i)] == s[i] by {
        assert(s.contains(s[i]));
        assert(t.contains(s[i]));
    }
    assert forall|i: int, j: int| 0 <= i < j < n implies #[trigger] f(i) < #[trigger] f(j) by {
        let p = s.subrange(i, n);
        assert(is_path(g, p)) by {
            assert forall|k: int| 0 <= k < p.len() - 1 implies #[trigger] has_edge(g, p[k], p[k + 1]) by {
                assert(has_edge(g, s[i + k], s[i + k + 1]));
            }
        }
        assert forall|k: int| 0 <= k < p.len() implies t.contains(#[trigger] p[k]) by {
            assert(s.contains(s[i + k]));
        }
        lemma_positions_increase(g, t, p, j - i);
        assert(p[0] == s[i]);
        assert(p[j - i] == s[j]);
    }
    lemma_increasing_is_identity(f, n);
    assert(s =~= t) by {
        assert forall|i: int| 0 <= i < n implies s[i] == t[i] by {
            assert(f(i) == i);
        }
    }
}

/// A strictly increasing map of `0..n` into itself is the identity.
proof fn lemma_increasing_is_identity(f: spec_fn(int) -> int, n: int)
    requires
        forall|i: int| 0 <= i < n ==> 0 <= #[trigger] f(i) < n,
        forall|i: int, j: int| 0 <= i < j < n ==> #[trigger] f(i) < #[trigger] f(j),
    ensures
        forall|i: int| 0 <= i < n ==> #[trigger] f(i) == i,
{
    assert forall|i: int| 0 <= i < n implies #[trigger] f(i) == i by {
        lemma_increasing_lower(f, n, i);
        lemma_increasing_upper(f, n, i);
    }
}

proof fn lemma_increasing_lower(f: spec_fn(int) -> int, n: int, i: int)
    requires
        forall|i: int| 0 <= i < n ==> 0 <= #[trigger] f(i) < n,
        forall|i: int, j: int| 0 <= i < j < n ==> #[trigger] f(i) < #[trigger] f(j),
        0 <= i < n,
    ensures
        f(i) >= i,
    decreases i,
{
    if i > 0 {
        lemma_increasing_lower(f, n, i - 1);
        assert(f(i - 1) < f(i));
    }
}

proof fn lemma_increasing_upper(f: spec_fn(int) -> int, n: int, i: int)
    requires
        forall|i: int| 0 <= i < n ==> 0 <= #[trigger] f(i) < n,
        forall|i: int, j: int| 0 <= i < j < n ==> #[trigger] f(i) < #[trigger] f(j),
        0 <= i < n,
    ensures
        f(i) <= i,
    decreases n - i,
{
    if i < n - 1 {
        lemma_increasing_upper(f, n, i + 1);
        assert(f(i) < f(i + 1));
    }
}

/// Filtering keeps exactly the elements that pass, and repeats none.
pub proof fn lemma_filter(s: Seq<LineId>, p: spec_fn(LineId) -> bool)
    ensures
        forall|x: LineId| s.filter(p).contains(x) <==> s.contains(x) && p(x),
        s.no_duplicates() ==> s.filter(p).no_duplicates(),
    decreases s.len(),
{
    if s.len() > 0 {
        let t = s.drop_last();
        lemma_filter(t, p);
        assert(s =~= t.push(s.last()));
        t.lemma_filter_push(s.last(), p);
        assert forall|x: LineId| s.contains(x) <==> t.contains(x) || x == s.last() by {
            if s.contains(x) && x != s.last() {
                let i = choose|i: int| 0 <= i < s.len() && s[i] == x;
                assert(t[i] == x);
            }
            if t.contains(x) {
                let i = choose|i: int| 0 <= i < t.len() && t[i] == x;
                assert(s[i] == x);
            }
        }
        if s.no_duplicates() {
            assert(t.no_duplicates());
            if t.contains(s.last()) {
                let i = choose|i: int| 0 <= i < t.len() && t[i] == s.last();
                assert(s[i] == s[s.len() - 1]);
            }
            let f = t.filter(p);
            if p(s.last()) {
                assert forall|i: int, j: int| 0 <= i < j < f.push(s.last()).len() implies f.push(s.last())[i] != f.push(s.last())[j] by {
                    if j == f.len() {
                        assert(f.contains(f[i]));
                    }
                }
            }
        }
    } else {
        assert(s.filter(p) =~= s) by {
            reveal(Seq::filter);
        }
    }
}

/// A graph seen through a predicate on nodes: the nodes that fail it, and
/// their edges, are left out.
pub struct NodeFiltered<G, F> {
    predicate: F,
    graph: G,
}

impl<G: GraphRef, F: Fn(&LineId) -> bool> NodeFiltered<G, F> {
    pub fn new(graph: G, predicate: F) -> (r: NodeFiltered<G, F>)
        ensures
            r.graph() == graph,
            r.predicate() == predicate,
    {
        NodeFiltered { predicate, graph }
    }

    pub closed spec fn graph(&self) -> G {
        self.graph
    }

    pub closed spec fn predicate(&self) -> F {
        self.predicate
    }

    /// Whether the predicate holds of `x`.
    pub open spec fn keeps(&self, x: LineId) -> bool {
        self.predicate().ensures((&x,), true)
    }

    pub open spec fn keep_fn(&self) -> spec_fn(LineId) -> bool {
        |x: LineId| self.keeps(x)
    }

    fn test(&self, x: &LineId) -> (r: bool)
        requires
            self.graph_wf(),
        ensures
            r == self.keeps(*x),
    {
        (self.predicate)(x)
    }
}

impl<G: GraphRef, F: Fn(&LineId) -> bool> GraphRef for NodeFiltered<G, F> {
    open spec fn node_seq(&self) -> Seq<LineId> {
        self.graph().node_seq().filter(self.keep_fn())
    }

    open spec fn edge(&self, u: LineId, v: LineId) -> bool {
        self.graph().edge(u, v) && self.keeps(u) && self.keeps(v)
    }

    /// The underlying graph is well-formed, and the predicate is total and
    /// gives one answer for each node.
    open spec fn graph_wf(&self) -> bool {
        &&& self.graph().graph_wf()
        &&& forall|x: &LineId| #[trigger] self.predicate().requires((x,))
        &&& forall|x: &LineId, a: bool, b: bool| #[trigger] self.predicate().ensures((x,), a) && #[trigger] self.predicate().ensures((x,), b) ==> a == b
    }

    proof fn lemma_graph_wf(&self) {
        self.graph().lemma_graph_wf();
        lemma_filter(self.graph().node_seq(), self.keep_fn());
    }

    fn nodes(&self) -> (r: Vec<LineId>) {
        let all = self.graph.nodes();
        let ghost keep = self.keep_fn();
        let mut r: Vec<LineId> = Vec::new();
        let mut i: usize = 0;
        while i < all.len()
            invariant
                self.graph_wf(),
                keep == self.keep_fn(),
                i <= all@.len(),
                r@ == all@.subrange(0, i as int).filter(keep),
            decreases all@.len() - i,
        {
            let x = all[i];
            let k = self.test(&x);
            proof {
                assert(all@.subrange(0, i + 1) =~= all@.subrange(0, i as int).push(x));
                all@.subrange(0, i as int).lemma_filter_push(x, keep);
            }
            if k {
                r.push(x);
            }
            i = i + 1;
        }
        assert(all@.subrange(0, i as int) =~= all@);
        r
    }

    fn out_neighbors(&self, u: &LineId) -> (r: Vec<LineId>) {
        let mut r: Vec<LineId> = Vec::new();
        if !self.test(u) {
            return r;
        }
        let all = self.graph.out_neighbors(u);
        let mut i: usize = 0;
        while i < all.len()
            invariant
                self.graph_wf(),
                self.keeps(*u),
                i <= all@.len(),
                forall|v: LineId| all@.contains(v) <==> self.graph().edge(*u, v),
                forall|v: LineId| r@.contains(v) <==> (all@.subrange(0, i as int).contains(v) && self.keeps(v)),
            decreases all@.len() - i,
        {
            let x = all[i];
            let ghost r0 = r@;
            let k = self.test(&x);
            if k {
                r.push(x);
            }
            proof {
                assert forall|v: LineId| r@.contains(v) <==> (all@.subrange(0, i + 1).contains(v) && self.keeps(v)) by {
                    let (s0, s1) = (all@.subrange(0, i as int), all@.subrange(0, i + 1));
                    if s1.contains(v) && v != x {
                        let j = choose|j: int| 0 <= j < s1.len() && s1[j] == v;
                        assert(s0[j] == v);
                    }
                    if s0.contains(v) {
                        let j = choose|j: int| 0 <= j < s0.len() && s0[j] == v;
                        assert(s1[j] == v);
                    }
                    if v == x {
                        assert(s1[i as int] == v);
                        if k {
                            assert(r@[r0.len() as int] == v);
                        }
                    }
                    if r0.contains(v) {
                        let j = choose|j: int| 0 <= j < r0.len() && r0[j] == v;
                        assert(r@[j] == v);
                    }
                    if r@.contains(v) && !r0.contains(v) {
                        assert(r@[r0.len() as int] == v);
                    }
                }
            }
            i = i + 1;
        }
        assert(all@.subrange(0, i as int) =~= all@);
        r
    }

    fn in_neighbors(&self, u: &LineId) -> (r: Vec<LineId>) {
        let mut r: Vec<LineId> = Vec::new();
        if !self.test(u) {
            return r;
        }
        let all = self.graph.in_neighbors(u);
        let mut i: usize = 0;
        while i < all.len()
            invariant
                self.graph_wf(),
                self.keeps(*u),
                i <= all@.len(),
                forall|v: LineId| all@.contains(v) <==> self.graph().edge(v, *u),
                forall|v: LineId| r@.contains(v) <==> (all@.subrange(0, i as int).contains(v) && self.keeps(v)),
            decreases all@.len() - i,
        {
            let x = all[i];
            let ghost r0 = r@;
            let k = self.test(&x);
            if k {
                r.push(x);
            }
            proof {
                assert forall|v: LineId| r@.contains(v) <==> (all@.subrange(0, i + 1).contains(v) && self.keeps(v)) by {
                    let (s0, s1) = (all@.subrange(0, i as int), all@.subrange(0, i + 1));
                    if s1.contains(v) && v != x {
                        let j = choose|j: int| 0 <= j < s1.len() && s1[j] == v;
                        assert(s0[j] == v);
                    }
                    if s0.contains(v) {
                        let j = choose|j: int| 0 <= j < s0.len() && s0[j] == v;
                        assert(s1[j] == v);
                    }
                    if v == x {
                        assert(s1[i as int] == v);
                        if k {
                            assert(r@[r0.len() as int] == v);
                        }
                    }
                    if r0.contains(v) {
                        let j = choose|j: int| 0 <= j < r0.len() && r0[j] == v;
                        assert(r@[j] == v);
                    }
                    if r@.contains(v) && !r0.contains(v) {
                        assert(r@[r0.len() as int] == v);
                    }
                }
            }
            i = i + 1;
        }
        assert(all@.subrange(0, i as int) =~= all@);
        r
    }
}

} // verus!
