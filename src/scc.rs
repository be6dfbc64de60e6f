use vstd::prelude::*;
use vstd::seq_lib::seq_to_set_is_finite;
use vstd::set_lib::lemma_len_subset;

use crate::graph::{has_edge, is_path, GraphRef};
use crate::graph::contains_line;
use crate::line::LineId;
use crate::ordset::OrdSet;

verus! {

/// There is a path, possibly of no edges, from `u` to `v`.
pub open spec fn reaches<G: GraphRef>(g: &G, u: LineId, v: LineId) -> bool {
    exists|p: Seq<LineId>| p.len() >= 1 && p[0] == u && p[p.len() - 1] == v && is_path(g, p)
}

/// `u` and `v` reach each other.
pub open spec fn mutual<G: GraphRef>(g: &G, u: LineId, v: LineId) -> bool {
    reaches(g, u, v) && reaches(g, v, u)
}

/// A set that holds `p[0]` and every head of an edge out of it holds all of `p`.
proof fn lemma_closed_holds_path<G: GraphRef>(g: &G, s: Set<LineId>, p: Seq<LineId>, i: int)
    requires
        is_path(g, p),
        p.len() >= 1,
        s.contains(p[0]),
        forall|x: LineId, v: LineId| s.contains(x) && #[trigger] has_edge(g, x, v) ==> s.contains(v),
        0 <= i < p.len(),
    ensures
        s.contains(p[i]),
    decreases i,
{
    if i > 0 {
        lemma_closed_holds_path(g, s, p, i - 1);
        let j = i - 1;
        assert(has_edge(g, p[j], p[j + 1]));
    }
}

/// Paths join end to start.
pub proof fn lemma_reaches_transitive<G: GraphRef>(g: &G, a: LineId, b: LineId, c: LineId)
    requires
        reaches(g, a, b),
        reaches(g, b, c),
    ensures
        reaches(g, a, c),
{
    let p = choose|p: Seq<LineId>| p.len() >= 1 && p[0] == a && p[p.len() - 1] == b && is_path(g, p);
    let q = choose|q: Seq<LineId>| q.len() >= 1 && q[0] == b && q[q.len() - 1] == c && is_path(g, q);
    let r = p + q.drop_first();
    assert(is_path(g, r)) by {
        assert forall|i: int| 0 <= i < r.len() - 1 implies #[trigger] has_edge(g, r[i], r[i + 1]) by {
            if i < p.len() - 1 {
                assert(has_edge(g, p[i], p[i + 1]));
            } else {
                let k = i - (p.len() - 1);
                assert(has_edge(g, q[k], q[k + 1]));
                if k == 0 {
                    assert(r[i] == q[0]);
                } else {
                    assert(r[i] == q[k]);
                }
                assert(r[i + 1] == q[k + 1]);
            }
        }
    }
    if q.len() == 1 {
        assert(r[r.len() - 1] == c);
    } else {
        assert(r[r.len() - 1] == q[q.len() - 1]);
    }
    assert(r.len() >= 1 && r[0] == a && r[r.len() - 1] == c && is_path(g, r));
}

/// The nodes that `u` reaches, `u` among them.
pub fn reachable_from<G: GraphRef>(g: &G, u: &LineId) -> (r: OrdSet<LineId>)
    requires
        g.graph_wf(),
        g.node_seq().contains(*u),
    ensures
        r.wf(),
        forall|v: LineId| r@.contains(v) <==> reaches(g, *u, v),
{
    proof {
        g.lemma_graph_wf();
        seq_to_set_is_finite(g.node_seq());
        assert(is_path(g, seq![*u]));
        assert(reaches(g, *u, *u)) by {
            assert(seq![*u][0] == *u);
        }
    }
    let ghost all = g.node_seq().to_set();
    let mut seen: OrdSet<LineId> = OrdSet::new();
    let mut stack: Vec<LineId> = Vec::new();
    seen.insert(*u);
    stack.push(*u);
    proof {
        lemma_len_subset(seen@, all);
        assert(stack@[0] == *u);
        assert(stack@.contains(*u));
    }
    while stack.len() > 0
        invariant
            g.graph_wf(),
            all == g.node_seq().to_set(),
            all.finite(),
            seen.wf(),
            seen@.subset_of(all),
            seen@.contains(*u),
            forall|x: LineId| stack@.contains(x) ==> seen@.contains(x),
            forall|x: LineId| #[trigger] seen@.contains(x) ==> reaches(g, *u, x),
            forall|x: LineId, v: LineId| seen@.contains(x) && !stack@.contains(x) && #[trigger] has_edge(g, x, v) ==> seen@.contains(v),
        decreases 2 * (all.len() - seen@.len()) + stack@.len(),
    {
        proof {
            lemma_len_subset(seen@, all);
        }
        let ghost before_pop = stack@;
        let x = stack.pop().unwrap();
        let ghost rest = stack@;
        assert(before_pop == rest.push(x));
        let nbrs = g.out_neighbors(&x);
        let ghost seen_before = seen@;
        let mut i: usize = 0;
        while i < nbrs.len()
            invariant
                g.graph_wf(),
                all == g.node_seq().to_set(),
                all.finite(),
                seen.wf(),
                seen@.subset_of(all),
                seen_before.subset_of(seen@),
                seen_before.finite(),
                seen@.contains(*u),
                seen@.contains(x),
                i <= nbrs@.len(),
                forall|v: LineId| nbrs@.contains(v) <==> g.edge(x, v),
                forall|k: int| 0 <= k < i ==> seen@.contains(#[trigger] nbrs@[k]),
                rest.is_prefix_of(stack@),
                forall|y: LineId| stack@.contains(y) ==> seen@.contains(y),
                forall|y: LineId| #[trigger] seen@.contains(y) ==> reaches(g, *u, y),
                forall|y: LineId| #[trigger] seen@.contains(y) && y != x && !rest.contains(y) && !seen_before.contains(y) ==> stack@.contains(y),
                2 * (all.len() - seen@.len()) + stack@.len() <= 2 * (all.len() - seen_before.len()) + rest.len(),
                forall|y: LineId, v: LineId| seen_before.contains(y) && !rest.push(x).contains(y) && #[trigger] has_edge(g, y, v) ==> seen_before.contains(v),
            decreases nbrs@.len() - i,
        {
            let v = nbrs[i];
            if !seen.contains(&v) {
                let ghost s0 = seen@;
                let ghost st0 = stack@;
                seen.insert(v);
                stack.push(v);
                proof {
                    g.lemma_graph_wf();
                    assert(nbrs@.contains(nbrs@[i as int]));
                    assert(g.node_seq().contains(v));
                    lemma_len_subset(s0, all);
                    lemma_len_subset(seen@, all);
                    assert(reaches(g, *u, x));
                    let p = choose|p: Seq<LineId>| p.len() >= 1 && p[0] == *u && p[p.len() - 1] == x && is_path(g, p);
                    let q = p.push(v);
                    assert(is_path(g, q)) by {
                        assert forall|j: int| 0 <= j < q.len() - 1 implies #[trigger] has_edge(g, q[j], q[j + 1]) by {
                            if j < p.len() - 1 {
                                assert(has_edge(g, p[j], p[j + 1]));
                            }
                        }
                    }
                    assert(q[q.len() - 1] == v);
                    assert(q.len() >= 1 && q[0] == *u && q[q.len() - 1] == v && is_path(g, q));
                    assert(reaches(g, *u, v));
                    assert forall|y: LineId| stack@.contains(y) implies seen@.contains(y) by {
                        if y != v {
                            let j = choose|j: int| 0 <= j < stack@.len() && stack@[j] == y;
                            assert(st0[j] == y);
                        }
                    }
                    assert(rest.is_prefix_of(stack@));
                    assert forall|y: LineId| #[trigger] seen@.contains(y) && y != x && !rest.contains(y) && !seen_before.contains(y) implies stack@.contains(y) by {
                        if y == v {
                            assert(stack@[stack@.len() - 1] == v);
                        } else {
                            assert(st0.contains(y));
                            let j = choose|j: int| 0 <= j < st0.len() && st0[j] == y;
                            assert(stack@[j] == y);
                        }
                    }
                }
            }
            i = i + 1;
        }
        proof {
            lemma_len_subset(seen@, all);
            assert forall|y: LineId, v: LineId| seen@.contains(y) && !stack@.contains(y) && #[trigger] has_edge(g, y, v) implies seen@.contains(v) by {
                if y == x {
                    assert(nbrs@.contains(v));
                    let k = choose|k: int| 0 <= k < nbrs@.len() && nbrs@[k] == v;
                } else if seen_before.contains(y) {
                    if rest.contains(y) {
                        let j = choose|j: int| 0 <= j < rest.len() && rest[j] == y;
                        assert(stack@[j] == y);
                    }
                    assert(!rest.push(x).contains(y)) by {
                        if rest.push(x).contains(y) {
                            let j = choose|j: int| 0 <= j < rest.len() + 1 && rest.push(x)[j] == y;
                            assert(rest[j] == y);
                        }
                    }
                } else {
                    if rest.contains(y) {
                        let j = choose|j: int| 0 <= j < rest.len() && rest[j] == y;
                        assert(stack@[j] == y);
                    }
                }
            }
        }
    }
    proof {
        assert forall|v: LineId| reaches(g, *u, v) implies seen@.contains(v) by {
            let p = choose|p: Seq<LineId>| p.len() >= 1 && p[0] == *u && p[p.len() - 1] == v && is_path(g, p);
            lemma_closed_holds_path(g, seen@, p, p.len() - 1);
        }
    }
    seen
}

/// The end of a path from a node is a node.
proof fn lemma_reaches_node<G: GraphRef>(g: &G, u: LineId, v: LineId)
    requires
        g.graph_wf(),
        g.node_seq().contains(u),
        reaches(g, u, v),
    ensures
        g.node_seq().contains(v),
{
    g.lemma_graph_wf();
    let p = choose|p: Seq<LineId>| p.len() >= 1 && p[0] == u && p[p.len() - 1] == v && is_path(g, p);
    if p.len() > 1 {
        let j = p.len() - 2;
        assert(has_edge(g, p[j], p[j + 1]));
    }
}

/// The strongly connected components of a graph: `components[c]` lists the
/// nodes of component `c`, and `successors[c]` the other components that an
/// edge leads to from it.
pub struct Decomposition {
    pub components: Vec<Vec<LineId>>,
    pub successors: Vec<Vec<usize>>,
}

/// Splits the nodes into strongly connected components: every node lies in
/// exactly one component, and two nodes share a component exactly when each
/// reaches the other. Components come in the order of their first node in
/// `nodes`, and list their nodes in that order too.
pub fn decompose<G: GraphRef>(g: &G) -> (r: Decomposition)
    requires
        g.graph_wf(),
    ensures
        forall|c: int, x: LineId| 0 <= c < r.components@.len() && #[trigger] r.components@[c]@.contains(x) ==> g.node_seq().contains(x),
        forall|x: LineId| g.node_seq().contains(x) ==> exists|c: int| 0 <= c < r.components@.len() && #[trigger] r.components@[c]@.contains(x),
        forall|c: int, d: int, x: LineId| 0 <= c < r.components@.len() && 0 <= d < r.components@.len()
            && #[trigger] r.components@[c]@.contains(x) && #[trigger] r.components@[d]@.contains(x) ==> c == d,
        forall|c: int, x: LineId, y: LineId|
            #![trigger r.components@[c]@.contains(x), r.components@[c]@.contains(y)]
            #![trigger r.components@[c]@.contains(x), mutual(g, x, y)]
            0 <= c < r.components@.len() && r.components@[c]@.contains(x)
            ==> (r.components@[c]@.contains(y) <==> mutual(g, x, y)),
        forall|c: int| 0 <= c < r.components@.len() ==> (#[trigger] r.components@[c])@.len() > 0,
        r.successors@.len() == r.components@.len(),
        forall|c: int, d: usize| 0 <= c < r.components@.len() ==> (#[trigger] r.successors@[c]@.contains(d)
            <==> d < r.components@.len() && d != c && links(g, r.components@[c]@, r.components@[d as int]@)),
{
    let nodes = g.nodes();
    let mut assigned: OrdSet<LineId> = OrdSet::new();
    let mut comps: Vec<Vec<LineId>> = Vec::new();
    let ghost mut reps: Seq<LineId> = Seq::empty();
    let mut i: usize = 0;
    while i < nodes.len()
        invariant
            g.graph_wf(),
            nodes@ == g.node_seq(),
            i <= nodes@.len(),
            assigned.wf(),
            reps.len() == comps@.len(),
            forall|c: int, x: LineId| 0 <= c < comps@.len() && #[trigger] comps@[c]@.contains(x)
                ==> g.node_seq().contains(x) && assigned@.contains(x),
            forall|x: LineId| #[trigger] assigned@.contains(x) ==> exists|c: int| 0 <= c < comps@.len() && #[trigger] comps@[c]@.contains(x),
            forall|c: int, y: LineId| 0 <= c < comps@.len() ==> (#[trigger] comps@[c]@.contains(y) <==> mutual(g, reps[c], y)),
            forall|c: int| 0 <= c < comps@.len() ==> g.node_seq().contains(#[trigger] reps[c]),
            forall|c: int| 0 <= c < comps@.len() ==> (#[trigger] comps@[c])@.contains(reps[c]),
            forall|c: int, d: int, x: LineId| 0 <= c < comps@.len() && 0 <= d < comps@.len()
                && #[trigger] comps@[c]@.contains(x) && #[trigger] comps@[d]@.contains(x) ==> c == d,
            forall|k: int| 0 <= k < i ==> assigned@.contains(#[trigger] nodes@[k]),
        decreases nodes@.len() - i,
    {
        let u = nodes[i];
        proof {
            assert(nodes@.contains(nodes@[i as int]));
        }
        if !assigned.contains(&u) {
            let ru = reachable_from(g, &u);
            let mut comp: Vec<LineId> = Vec::new();
            let ghost assigned0 = assigned@;
            let mut j: usize = 0;
            while j < nodes.len()
                invariant
                    g.graph_wf(),
                    nodes@ == g.node_seq(),
                    g.node_seq().contains(u),
                    j <= nodes@.len(),
                    ru.wf(),
                    assigned.wf(),
                    forall|v: LineId| ru@.contains(v) <==> reaches(g, u, v),
                    forall|y: LineId| comp@.contains(y) <==> exists|k: int| 0 <= k < j && nodes@[k] == y && mutual(g, u, y),
                    forall|y: LineId| #[trigger] assigned@.contains(y) <==> assigned0.contains(y) || comp@.contains(y),
                decreases nodes@.len() - j,
            {
                let v = nodes[j];
                let ghost comp0 = comp@;
                if ru.contains(&v) {
                    proof {
                        assert(nodes@.contains(nodes@[j as int]));
                    }
                    let rv = reachable_from(g, &v);
                    if rv.contains(&u) {
                        comp.push(v);
                        assigned.insert(v);
                    }
                }
                proof {
                    assert forall|y: LineId| comp@.contains(y) <==> exists|k: int| 0 <= k < j + 1 && nodes@[k] == y && mutual(g, u, y) by {
                        if comp@.contains(y) && !comp0.contains(y) {
                            assert(comp@[comp0.len() as int] == y);
                            assert(nodes@[j as int] == y);
                        }
                        if comp0.contains(y) {
                            let k = choose|k: int| 0 <= k < comp0.len() && comp0[k] == y;
                            assert(comp@[k] == y);
                        }
                        if exists|k: int| 0 <= k < j + 1 && nodes@[k] == y && mutual(g, u, y) {
                            let k = choose|k: int| 0 <= k < j + 1 && nodes@[k] == y && mutual(g, u, y);
                            if k == j {
                                assert(ru@.contains(v));
                                assert(comp@[comp@.len() - 1] == y);
                            } else {
                                assert(exists|k: int| 0 <= k < j && nodes@[k] == y && mutual(g, u, y));
                            }
                        }
                    }
                    assert forall|y: LineId| #[trigger] assigned@.contains(y) <==> assigned0.contains(y) || comp@.contains(y) by {
                        if comp0.contains(y) {
                            let k = choose|k: int| 0 <= k < comp0.len() && comp0[k] == y;
                            assert(comp@[k] == y);
                        }
                        if comp@.contains(y) && !comp0.contains(y) {
                            assert(comp@[comp0.len() as int] == y);
                        }
                    }
                }
                j = j + 1;
            }
            proof {
                assert forall|y: LineId| comp@.contains(y) <==> mutual(g, u, y) by {
                    if mutual(g, u, y) {
                        lemma_reaches_node(g, u, y);
                        let k = choose|k: int| 0 <= k < nodes@.len() && nodes@[k] == y;
                        assert(exists|k: int| 0 <= k < j && nodes@[k] == y && mutual(g, u, y));
                    }
                }
            }
            let ghost old_comps = comps@;
            comps.push(comp);
            proof {
                reps = reps.push(u);
                let n = old_comps.len() as int;
                assert(comps@[n]@ == comp@);
                assert(reaches(g, u, u)) by {
                    assert(is_path(g, seq![u]));
                    assert(seq![u][0] == u);
                }
                assert(comp@.contains(u));
                assert forall|c: int, x: LineId| 0 <= c < comps@.len() && #[trigger] comps@[c]@.contains(x)
                    implies g.node_seq().contains(x) && assigned@.contains(x) by {
                    if c == n {
                        lemma_reaches_node(g, u, x);
                    } else {
                        assert(old_comps[c] == comps@[c]);
                    }
                }
                assert forall|x: LineId| #[trigger] assigned@.contains(x) implies exists|c: int| 0 <= c < comps@.len() && #[trigger] comps@[c]@.contains(x) by {
                    if assigned0.contains(x) {
                        let c = choose|c: int| 0 <= c < old_comps.len() && #[trigger] old_comps[c]@.contains(x);
                        assert(comps@[c] == old_comps[c]);
                    } else {
                        assert(comps@[n]@.contains(x));
                    }
                }
                assert forall|c: int, y: LineId| 0 <= c < comps@.len() implies (#[trigger] comps@[c]@.contains(y) <==> mutual(g, reps[c], y)) by {
                    if c < n {
                        assert(old_comps[c] == comps@[c]);
                    }
                }
                assert forall|c: int| 0 <= c < comps@.len() implies g.node_seq().contains(#[trigger] reps[c]) by {
                }
                assert forall|c: int| 0 <= c < comps@.len() implies (#[trigger] comps@[c])@.contains(reps[c]) by {
                    if c < n {
                        assert(old_comps[c] == comps@[c]);
                    }
                }
                assert forall|c: int, d: int, x: LineId| 0 <= c < comps@.len() && 0 <= d < comps@.len()
                    && #[trigger] comps@[c]@.contains(x) && #[trigger] comps@[d]@.contains(x) implies c == d by {
                    if c != d && (c == n || d == n) {
                        let e = if c == n { d } else { c };
                        assert(comps@[e] == old_comps[e]);
                        assert(old_comps[e]@.contains(x));
                        assert(mutual(g, reps[e], x));
                        assert(mutual(g, u, x));
                        lemma_reaches_transitive(g, reps[e], x, u);
                        lemma_reaches_transitive(g, u, x, reps[e]);
                        assert(old_comps[e]@.contains(u));
                        assert(assigned0.contains(u));
                    } else if c != d {
                        assert(comps@[c] == old_comps[c]);
                        assert(comps@[d] == old_comps[d]);
                    }
                }
                assert forall|k: int| 0 <= k < i + 1 implies assigned@.contains(#[trigger] nodes@[k]) by {
                    if k == i {
                        assert(comp@.contains(u));
                    }
                }
            }
        }
        i = i + 1;
    }
    proof {
        assert forall|c: int, x: LineId, y: LineId|
            #![trigger comps@[c]@.contains(x), comps@[c]@.contains(y)]
            #![trigger comps@[c]@.contains(x), mutual(g, x, y)]
            0 <= c < comps@.len() && comps@[c]@.contains(x)
            implies (comps@[c]@.contains(y) <==> mutual(g, x, y)) by {
            let r = reps[c];
            assert(mutual(g, r, x));
            if comps@[c]@.contains(y) {
                assert(mutual(g, r, y));
                lemma_reaches_transitive(g, x, r, y);
                lemma_reaches_transitive(g, y, r, x);
            }
            if mutual(g, x, y) {
                lemma_reaches_transitive(g, r, x, y);
                lemma_reaches_transitive(g, y, x, r);
            }
        }
        assert forall|x: LineId| g.node_seq().contains(x) implies exists|c: int| 0 <= c < comps@.len() && #[trigger] comps@[c]@.contains(x) by {
            let k = choose|k: int| 0 <= k < nodes@.len() && nodes@[k] == x;
            assert(assigned@.contains(nodes@[k]));
            assert(assigned@.contains(x));
            let c = choose|c: int| 0 <= c < comps@.len() && #[trigger] comps@[c]@.contains(x);
            assert(0 <= c < comps@.len() && comps@[c]@.contains(x));
        }
    }
    proof {
        assert forall|c: int| 0 <= c < comps@.len() implies (#[trigger] comps@[c])@.len() > 0 by {
            assert(comps@[c]@.contains(reps[c]));
        }
    }
    let successors = condensation(g, &comps);
    let r = Decomposition { components: comps, successors };
    assert(r.components@ == comps@);
    r
}

/// Whether some edge leads from a node of `a` to a node of `b`.
pub open spec fn links<G: GraphRef>(g: &G, a: Seq<LineId>, b: Seq<LineId>) -> bool {
    exists|x: LineId, y: LineId| a.contains(x) && b.contains(y) && #[trigger] has_edge(g, x, y)
}

/// `y` lies in component `c` or in one listed in `row`.
spec fn covered(comps: Seq<Vec<LineId>>, row: Seq<usize>, c: int, y: LineId) -> bool {
    exists|d: int| 0 <= d < comps.len() && #[trigger] comps[d]@.contains(y) && (d == c || row.contains(d as usize))
}

/// The index of a component that holds `x`.
fn find_component(comps: &Vec<Vec<LineId>>, x: &LineId) -> (c: usize)
    requires
        exists|c: int| 0 <= c < comps@.len() && #[trigger] comps@[c]@.contains(*x),
    ensures
        c < comps@.len(),
        comps@[c as int]@.contains(*x),
{
    let mut c: usize = 0;
    while c < comps.len()
        invariant
            c <= comps@.len(),
            exists|d: int| c <= d < comps@.len() && #[trigger] comps@[d]@.contains(*x),
        decreases comps@.len() - c,
    {
        if contains_line(&comps[c], x) {
            return c;
        }
        c = c + 1;
    }
    c
}

/// Whether `x` is in `v`.
fn contains_index(v: &Vec<usize>, x: usize) -> (r: bool)
    ensures
        r == v@.contains(x),
{
    let mut i: usize = 0;
    while i < v.len()
        invariant
            i <= v@.len(),
            forall|k: int| 0 <= k < i ==> v@[k] != x,
        decreases v@.len() - i,
    {
        if v[i] == x {
            return true;
        }
        i = i + 1;
    }
    false
}

/// For each component, the other components that an edge leads to from it.
fn condensation<G: GraphRef>(g: &G, comps: &Vec<Vec<LineId>>) -> (succ: Vec<Vec<usize>>)
    requires
        g.graph_wf(),
        forall|x: LineId| g.node_seq().contains(x) ==> exists|c: int| 0 <= c < comps@.len() && #[trigger] comps@[c]@.contains(x),
        forall|a: int, b: int, x: LineId| 0 <= a < comps@.len() && 0 <= b < comps@.len()
            && #[trigger] comps@[a]@.contains(x) && #[trigger] comps@[b]@.contains(x) ==> a == b,
    ensures
        succ@.len() == comps@.len(),
        forall|c: int, d: usize| 0 <= c < comps@.len() ==> (#[trigger] succ@[c]@.contains(d)
            <==> d < comps@.len() && d != c && links(g, comps@[c]@, comps@[d as int]@)),
{
    let mut succ: Vec<Vec<usize>> = Vec::new();
    let mut c: usize = 0;
    while c < comps.len()
        invariant
            g.graph_wf(),
            forall|x: LineId| g.node_seq().contains(x) ==> exists|c: int| 0 <= c < comps@.len() && #[trigger] comps@[c]@.contains(x),
            forall|a: int, b: int, x: LineId| 0 <= a < comps@.len() && 0 <= b < comps@.len()
                && #[trigger] comps@[a]@.contains(x) && #[trigger] comps@[b]@.contains(x) ==> a == b,
            c <= comps@.len(),
            succ@.len() == c,
            forall|a: int, d: usize| 0 <= a < c ==> (#[trigger] succ@[a]@.contains(d)
                <==> d < comps@.len() && d != a && links(g, comps@[a]@, comps@[d as int]@)),
        decreases comps@.len() - c,
    {
        let comp = &comps[c];
        let mut row: Vec<usize> = Vec::new();
        let mut k: usize = 0;
        while k < comp.len()
            invariant
                g.graph_wf(),
                forall|x: LineId| g.node_seq().contains(x) ==> exists|c: int| 0 <= c < comps@.len() && #[trigger] comps@[c]@.contains(x),
                c < comps@.len(),
                *comp == comps@[c as int],
                k <= comp@.len(),
                forall|d: usize| #[trigger] row@.contains(d) ==> d < comps@.len() && d != c && links(g, comps@[c as int]@, comps@[d as int]@),
                forall|j: int, y: LineId| 0 <= j < k && #[trigger] has_edge(g, comp@[j], y) ==> covered(comps@, row@, c as int, y),
            decreases comp@.len() - k,
        {
            let x = comp[k];
            let nb = g.out_neighbors(&x);
            let mut t: usize = 0;
            while t < nb.len()
                invariant
                    g.graph_wf(),
                    forall|x: LineId| g.node_seq().contains(x) ==> exists|c: int| 0 <= c < comps@.len() && #[trigger] comps@[c]@.contains(x),
                    c < comps@.len(),
                    *comp == comps@[c as int],
                    k < comp@.len(),
                    x == comp@[k as int],
                    t <= nb@.len(),
                    forall|y: LineId| nb@.contains(y) <==> g.edge(x, y),
                    forall|d: usize| #[trigger] row@.contains(d) ==> d < comps@.len() && d != c && links(g, comps@[c as int]@, comps@[d as int]@),
                    forall|j: int, y: LineId| 0 <= j < k && #[trigger] has_edge(g, comp@[j], y) ==> covered(comps@, row@, c as int, y),
                    forall|s: int| 0 <= s < t ==> covered(comps@, row@, c as int, #[trigger] nb@[s]),
                decreases nb@.len() - t,
            {
                let y = nb[t];
                proof {
                    g.lemma_graph_wf();
                    assert(nb@.contains(nb@[t as int]));
                    assert(g.node_seq().contains(y));
                }
                let d = find_component(comps, &y);
                let ghost row0 = row@;
                if d != c && !contains_index(&row, d) {
                    row.push(d);
                    proof {
                        assert(comp@.contains(x)) by {
                            assert(comp@[k as int] == x);
                        }
                        assert(has_edge(g, x, y));
                        assert(links(g, comps@[c as int]@, comps@[d as int]@));
                    }
                }
                proof {
                    assert forall|e: usize| row0.contains(e) implies #[trigger] row@.contains(e) by {
                        let a = choose|a: int| 0 <= a < row0.len() && row0[a] == e;
                        assert(row@[a] == e);
                    }
                    assert forall|e: usize| #[trigger] row@.contains(e) implies e < comps@.len() && e != c && links(g, comps@[c as int]@, comps@[e as int]@) by {
                        if !row0.contains(e) {
                            assert(row@[row0.len() as int] == e);
                        }
                    }
                    if d != c && !row0.contains(d) {
                        assert(row@[row0.len() as int] == d);
                    }
                    assert(row@.contains(d) || d == c);
                    assert(comps@[d as int]@.contains(y));
                    assert(covered(comps@, row@, c as int, y));
                    assert forall|z: LineId| covered(comps@, row0, c as int, z) implies covered(comps@, row@, c as int, z) by {
                        let e = choose|e: int| 0 <= e < comps@.len() && #[trigger] comps@[e]@.contains(z) && (e == c || row0.contains(e as usize));
                        if e != c {
                            assert(row@.contains(e as usize));
                        }
                    }
                }
                t = t + 1;
            }
            proof {
                assert forall|j: int, y: LineId| 0 <= j < k + 1 && #[trigger] has_edge(g, comp@[j], y)
                    implies covered(comps@, row@, c as int, y) by {
                    if j == k {
                        assert(nb@.contains(y));
                        let s = choose|s: int| 0 <= s < nb@.len() && nb@[s] == y;
                    }
                }
            }
            k = k + 1;
        }
        let ghost succ0 = succ@;
        succ.push(row);
        proof {
            assert forall|a: int, d: usize| 0 <= a < c + 1 implies (#[trigger] succ@[a]@.contains(d)
                <==> d < comps@.len() && d != a && links(g, comps@[a]@, comps@[d as int]@)) by {
                if a < c {
                    assert(succ@[a] == succ0[a]);
                } else {
                    if d < comps@.len() && d != a && links(g, comps@[a]@, comps@[d as int]@) {
                        let (x, y) = choose|x: LineId, y: LineId| comps@[a]@.contains(x) && comps@[d as int]@.contains(y) && #[trigger] has_edge(g, x, y);
                        let j = choose|j: int| 0 <= j < comps@[a]@.len() && comps@[a]@[j] == x;
                        assert(has_edge(g, comp@[j], y));
                        assert(covered(comps@, row@, c as int, y));
                        let e = choose|e: int| 0 <= e < comps@.len() && #[trigger] comps@[e]@.contains(y) && (e == c || row@.contains(e as usize));
                        assert(d as int == e);
                    }
                }
            }
        }
        c = c + 1;
    }
    succ
}

} // verus!
