use vstd::prelude::*;
use vstd::seq_lib::seq_to_set_is_finite;
use vstd::set_lib::lemma_len_subset;

use crate::graph::{has_edge, GraphRef};
use crate::line::LineId;
use crate::ordset::OrdSet;

verus! {

/// Whether the head of an edge had been entered when the edge was met.
#[derive(Clone, Copy, Debug, PartialEq, Eq, Structural)]
pub enum Status {
    New,
    Repeat,
}

/// One step of a depth-first search over a whole graph.
#[derive(Clone, Copy, Debug, PartialEq, Eq, Structural)]
pub enum Visit {
    /// A search tree starts at this node.
    Root(LineId),
    /// The edge from `src` to `dst` is considered.
    Edge { src: LineId, dst: LineId, status: Status },
    /// Every node below `u` is done, and the search goes back to `parent`.
    Retreat { u: LineId, parent: Option<LineId> },
}

/// The nodes entered by the events, in order: roots and heads of new edges.
pub open spec fn entered(ev: Seq<Visit>) -> Seq<LineId>
    decreases ev.len(),
{
    if ev.len() == 0 {
        Seq::empty()
    } else {
        let rest = entered(ev.drop_last());
        match ev.last() {
            Visit::Root(u) => rest.push(u),
            Visit::Edge { src: _, dst, status: Status::New } => rest.push(dst),
            _ => rest,
        }
    }
}

/// The nodes left by the events, in order.
pub open spec fn retreated(ev: Seq<Visit>) -> Seq<LineId>
    decreases ev.len(),
{
    if ev.len() == 0 {
        Seq::empty()
    } else {
        let rest = retreated(ev.drop_last());
        match ev.last() {
            Visit::Retreat { u, parent: _ } => rest.push(u),
            _ => rest,
        }
    }
}

/// `e` is an edge event from `u` to `v`.
pub open spec fn is_edge_event(e: Visit, u: LineId, v: LineId) -> bool {
    match e {
        Visit::Edge { src, dst, status: _ } => src == u && dst == v,
        _ => false,
    }
}

/// Some event of `ev` considers the edge from `u` to `v`.
pub open spec fn emitted(ev: Seq<Visit>, u: LineId, v: LineId) -> bool {
    exists|a: int| 0 <= a < ev.len() && #[trigger] is_edge_event(ev[a], u, v)
}

proof fn lemma_emitted_extends(ev: Seq<Visit>, ev2: Seq<Visit>, u: LineId, v: LineId)
    requires
        emitted(ev, u, v),
        ev.is_prefix_of(ev2),
    ensures
        emitted(ev2, u, v),
{
    let a = choose|a: int| 0 <= a < ev.len() && #[trigger] is_edge_event(ev[a], u, v);
    assert(ev2[a] == ev[a]);
}

/// Event `e` may follow the events `pre`: a root comes only when every node
/// entered so far has been left, and is not entered yet; an edge is an edge of
/// `g` out of a node entered and not yet left, new exactly when its head had
/// not been entered; a retreat leaves a node entered and not yet left, after
/// every edge out of it has been considered, and its parent, if any, has an
/// edge to it.
pub open spec fn step_ok<G: GraphRef>(g: &G, pre: Seq<Visit>, e: Visit) -> bool {
    match e {
        Visit::Root(u) => !entered(pre).contains(u) && forall|x: LineId| #[trigger] entered(pre).contains(x) ==> retreated(pre).contains(x),
        Visit::Edge { src, dst, status } => {
            &&& has_edge(g, src, dst)
            &&& entered(pre).contains(src)
            &&& !retreated(pre).contains(src)
            &&& ((status == Status::New) <==> !entered(pre).contains(dst))
        },
        Visit::Retreat { u, parent } => {
            &&& entered(pre).contains(u)
            &&& !retreated(pre).contains(u)
            &&& (parent matches Some(p) ==> has_edge(g, p, u))
            &&& forall|v: LineId| #[trigger] has_edge(g, u, v) ==> emitted(pre, u, v)
        },
    }
}

/// Event `i` may follow the events before it.
pub open spec fn event_ok<G: GraphRef>(g: &G, ev: Seq<Visit>, i: int) -> bool {
    step_ok(g, ev.subrange(0, i), ev[i])
}

proof fn lemma_push(ev: Seq<Visit>, e: Visit)
    ensures
        entered(ev.push(e)) == match e {
            Visit::Root(u) => entered(ev).push(u),
            Visit::Edge { src: _, dst, status: Status::New } => entered(ev).push(dst),
            _ => entered(ev),
        },
        retreated(ev.push(e)) == match e {
            Visit::Retreat { u, parent: _ } => retreated(ev).push(u),
            _ => retreated(ev),
        },
{
    assert(ev.push(e).drop_last() =~= ev);
}

/// Appending to a sequence without repeats an element it lacks keeps it so.
proof fn lemma_push_no_dup(s: Seq<LineId>, x: LineId)
    requires
        s.no_duplicates(),
        !s.contains(x),
    ensures
        s.push(x).no_duplicates(),
        forall|y: LineId| s.push(x).contains(y) <==> s.contains(y) || y == x,
{
    assert forall|i: int, j: int| 0 <= i < j < s.push(x).len() implies s.push(x)[i] != s.push(x)[j] by {
        if j == s.len() {
            assert(s.contains(s[i]));
        }
    }
    assert forall|y: LineId| s.push(x).contains(y) <==> s.contains(y) || y == x by {
        if s.push(x).contains(y) && y != x {
            let i = choose|i: int| 0 <= i < s.push(x).len() && s.push(x)[i] == y;
            assert(s[i] == y);
        }
        if s.contains(y) {
            let i = choose|i: int| 0 <= i < s.len() && s[i] == y;
            assert(s.push(x)[i] == y);
        }
        if y == x {
            assert(s.push(x)[s.len() as int] == y);
        }
    }
}

struct Walk {
    visited: OrdSet<LineId>,
    events: Vec<Visit>,
}

impl Walk {
    spec fn inv<G: GraphRef>(&self, g: &G) -> bool {
        &&& self.visited.wf()
        &&& self.visited@.subset_of(g.node_seq().to_set())
        &&& forall|x: LineId| self.visited@.contains(x) <==> entered(self.events@).contains(x)
        &&& entered(self.events@).no_duplicates()
        &&& retreated(self.events@).no_duplicates()
        &&& forall|x: LineId| retreated(self.events@).contains(x) ==> self.visited@.contains(x)
        &&& forall|i: int| 0 <= i < self.events@.len() ==> #[trigger] event_ok(g, self.events@, i)
    }
}

/// Appending an event keeps the verdicts on the earlier ones.
proof fn lemma_extend_ok<G: GraphRef>(g: &G, ev: Seq<Visit>, e: Visit)
    requires
        forall|i: int| 0 <= i < ev.len() ==> #[trigger] event_ok(g, ev, i),
        step_ok(g, ev, e),
    ensures
        forall|i: int| 0 <= i < ev.push(e).len() ==> #[trigger] event_ok(g, ev.push(e), i),
{
    assert forall|i: int| 0 <= i < ev.push(e).len() implies #[trigger] event_ok(g, ev.push(e), i) by {
        if i < ev.len() {
            assert(ev.push(e).subrange(0, i) =~= ev.subrange(0, i));
            assert(event_ok(g, ev, i));
        } else {
            assert(ev.push(e).subrange(0, i) =~= ev);
        }
    }
}

/// Explores from `u`, already entered, and leaves it.
fn walk_from<G: GraphRef>(g: &G, st: &mut Walk, u: LineId, parent: Option<LineId>)
    requires
        g.graph_wf(),
        old(st).inv(g),
        old(st).visited@.contains(u),
        !retreated(old(st).events@).contains(u),
        parent matches Some(p) ==> has_edge(g, p, u),
    ensures
        final(st).inv(g),
        old(st).events@.is_prefix_of(final(st).events@),
        forall|i: int| old(st).events@.len() <= i < final(st).events@.len() ==> !(#[trigger] final(st).events@[i] is Root),
        old(st).visited@.subset_of(final(st).visited@),
        retreated(final(st).events@).contains(u),
        forall|x: LineId| retreated(old(st).events@).contains(x) ==> retreated(final(st).events@).contains(x),
        forall|x: LineId| retreated(final(st).events@).contains(x) ==> retreated(old(st).events@).contains(x) || !old(st).visited@.contains(x) || x == u,
        forall|x: LineId| final(st).visited@.contains(x) && !old(st).visited@.contains(x) ==> retreated(final(st).events@).contains(x),
    decreases g.node_seq().to_set().len() - old(st).visited@.len(),
{
    let ghost st0 = *st;
    proof {
        g.lemma_graph_wf();
        seq_to_set_is_finite(g.node_seq());
        lemma_len_subset(st0.visited@, g.node_seq().to_set());
    }
    let nbrs = g.out_neighbors(&u);
    let mut i: usize = 0;
    while i < nbrs.len()
        invariant
            g.graph_wf(),
            st.inv(g),
            forall|v: LineId| nbrs@.contains(v) <==> g.edge(u, v),
            i <= nbrs@.len(),
            st0 == *old(st),
            st0.events@.is_prefix_of(st.events@),
            forall|i: int| st0.events@.len() <= i < st.events@.len() ==> !(#[trigger] st.events@[i] is Root),
            st0.visited@.subset_of(st.visited@),
            st.visited@.contains(u),
            !retreated(st.events@).contains(u),
            parent matches Some(p) ==> has_edge(g, p, u),
            forall|k: int| 0 <= k < i ==> emitted(st.events@, u, #[trigger] nbrs@[k]),
            forall|x: LineId| retreated(st0.events@).contains(x) ==> retreated(st.events@).contains(x),
            forall|x: LineId| retreated(st.events@).contains(x) ==> retreated(st0.events@).contains(x) || !st0.visited@.contains(x),
            forall|x: LineId| st.visited@.contains(x) && !st0.visited@.contains(x) ==> retreated(st.events@).contains(x),
            g.node_seq().to_set().finite(),
            st0.visited@.len() <= g.node_seq().to_set().len(),
            st0.visited@.finite(),
        decreases nbrs@.len() - i,
    {
        let v = nbrs[i];
        proof {
            assert(nbrs@.contains(nbrs@[i as int]));
            assert(has_edge(g, u, v));
        }
        let ghost ev0 = st.events@;
        if st.visited.contains(&v) {
            let e = Visit::Edge { src: u, dst: v, status: Status::Repeat };
            st.events.push(e);
            proof {
                lemma_push(ev0, e);
                lemma_extend_ok(g, ev0, e);
                assert(st0.events@.is_prefix_of(st.events@));
            }
        } else {
            let e = Visit::Edge { src: u, dst: v, status: Status::New };
            let ghost before = st.visited@;
            st.events.push(e);
            st.visited.insert(v);
            proof {
                lemma_push(ev0, e);
                lemma_extend_ok(g, ev0, e);
                lemma_push_no_dup(entered(ev0), v);
                g.lemma_graph_wf();
                assert(g.node_seq().contains(v));
                assert(g.node_seq().to_set().contains(v));
                lemma_len_subset(before, g.node_seq().to_set());
                lemma_len_subset(st0.visited@, before);
                lemma_len_subset(st.visited@, g.node_seq().to_set());
                assert(st.visited@.len() == before.len() + 1);
                assert(st0.events@.is_prefix_of(st.events@));
            }
            let ghost mid = *st;
            walk_from(g, st, v, Some(u));
            proof {
                assert(retreated(mid.events@) == retreated(ev0));
                assert(mid.visited@.contains(u));
                assert(!before.contains(v));
                assert(u != v);
                assert forall|x: LineId| retreated(st.events@).contains(x) implies retreated(st0.events@).contains(x) || !st0.visited@.contains(x) by {
                    if retreated(mid.events@).contains(x) {
                    } else if !mid.visited@.contains(x) {
                        assert(!before.contains(x));
                    } else {
                        assert(x == v);
                        assert(!st0.visited@.contains(v));
                    }
                }
                assert(!retreated(st.events@).contains(u));
                assert forall|i: int| st0.events@.len() <= i < st.events@.len() implies !(#[trigger] st.events@[i] is Root) by {
                    if i < mid.events@.len() {
                        assert(st.events@[i] == mid.events@[i]);
                    }
                }
                assert(st0.events@.is_prefix_of(st.events@)) by {
                    assert forall|k: int| 0 <= k < st0.events@.len() implies st.events@[k] == st0.events@[k] by {
                        assert(mid.events@[k] == st0.events@[k]);
                    }
                }
            }
        }
        proof {
            assert(ev0.is_prefix_of(st.events@)) by {
                assert forall|k: int| 0 <= k < ev0.len() implies st.events@[k] == ev0[k] by {
                    assert(ev0.push(Visit::Edge { src: u, dst: v, status: Status::New })[k] == ev0[k]);
                    assert(ev0.push(Visit::Edge { src: u, dst: v, status: Status::Repeat })[k] == ev0[k]);
                }
            }
            assert(is_edge_event(st.events@[ev0.len() as int], u, v));
            assert forall|k: int| 0 <= k < i + 1 implies emitted(st.events@, u, #[trigger] nbrs@[k]) by {
                if k < i {
                    lemma_emitted_extends(ev0, st.events@, u, nbrs@[k]);
                }
            }
        }
        i = i + 1;
    }
    let ghost ev0 = st.events@;
    proof {
        assert forall|v: LineId| #[trigger] has_edge(g, u, v) implies emitted(ev0, u, v) by {
            assert(nbrs@.contains(v));
            let k = choose|k: int| 0 <= k < nbrs@.len() && nbrs@[k] == v;
        }
    }
    let e = Visit::Retreat { u, parent };
    st.events.push(e);
    proof {
        lemma_push(ev0, e);
        lemma_extend_ok(g, ev0, e);
        lemma_push_no_dup(retreated(ev0), u);
        assert(st0.events@.is_prefix_of(st.events@));
    }
}

/// A depth-first search over the whole graph, as a sequence of events. A new
/// tree starts, once every node entered so far has been left, at the first
/// node of `nodes` not yet entered; edges are taken in the order of
/// `out_neighbors`. Every node is entered exactly once (as a root or as the
/// head of a new edge) and left exactly once, after its entry and after every
/// edge out of it has been considered; every edge event leaves a node entered
/// and not yet left, and is new exactly when its head had not been entered.
pub fn dfs<G: GraphRef>(g: &G) -> (r: Vec<Visit>)
    requires
        g.graph_wf(),
    ensures
        entered(r@).no_duplicates(),
        forall|x: LineId| entered(r@).contains(x) <==> g.node_seq().contains(x),
        retreated(r@).no_duplicates(),
        forall|x: LineId| retreated(r@).contains(x) <==> g.node_seq().contains(x),
        forall|i: int| 0 <= i < r@.len() ==> #[trigger] event_ok(g, r@, i),
        forall|i: int, k: int| 0 <= i < r@.len() && 0 <= k < g.node_seq().len()
            && #[trigger] r@[i] == Visit::Root(#[trigger] g.node_seq()[k])
            ==> forall|j: int| 0 <= j < k ==> entered(r@.subrange(0, i)).contains(#[trigger] g.node_seq()[j]),
{
    let nodes = g.nodes();
    let mut st = Walk { visited: OrdSet::new(), events: Vec::new() };
    proof {
        assert(entered(st.events@) =~= Seq::<LineId>::empty());
        assert(retreated(st.events@) =~= Seq::<LineId>::empty());
    }
    let mut i: usize = 0;
    while i < nodes.len()
        invariant
            g.graph_wf(),
            nodes@ == g.node_seq(),
            i <= nodes@.len(),
            st.inv(g),
            forall|x: LineId| retreated(st.events@).contains(x) <==> st.visited@.contains(x),
            forall|k: int| 0 <= k < i ==> st.visited@.contains(#[trigger] nodes@[k]),
            forall|a: int, k: int| 0 <= a < st.events@.len() && 0 <= k < nodes@.len()
                && #[trigger] st.events@[a] == Visit::Root(#[trigger] nodes@[k])
                ==> forall|j: int| 0 <= j < k ==> entered(st.events@.subrange(0, a)).contains(#[trigger] nodes@[j]),
        decreases nodes@.len() - i,
    {
        let u = nodes[i];
        if !st.visited.contains(&u) {
            let ghost ev0 = st.events@;
            let ghost pre0 = st;
            proof {
                assert forall|x: LineId| #[trigger] entered(ev0).contains(x) implies retreated(ev0).contains(x) by {
                    assert(st.visited@.contains(x));
                }
                assert(!entered(ev0).contains(u));
            }
            let e = Visit::Root(u);
            st.events.push(e);
            st.visited.insert(u);
            proof {
                lemma_push(ev0, e);
                lemma_extend_ok(g, ev0, e);
                lemma_push_no_dup(entered(ev0), u);
                assert(nodes@.contains(nodes@[i as int]));
                assert(g.node_seq().to_set().contains(u));
            }
            let ghost pre = st;
            proof {
                g.lemma_graph_wf();
                assert forall|a: int, k: int| 0 <= a < st.events@.len() && 0 <= k < nodes@.len()
                    && #[trigger] st.events@[a] == Visit::Root(#[trigger] nodes@[k])
                    implies forall|j: int| 0 <= j < k ==> entered(st.events@.subrange(0, a)).contains(#[trigger] nodes@[j]) by {
                    if a < ev0.len() {
                        assert(st.events@.subrange(0, a) =~= ev0.subrange(0, a));
                        assert(ev0[a] == st.events@[a]);
                    } else {
                        assert(st.events@.subrange(0, a) =~= ev0);
                        assert(nodes@[k] == u);
                        assert(k == i) by {
                            if k != i {
                                assert(nodes@[k] != nodes@[i as int]);
                            }
                        }
                        assert forall|j: int| 0 <= j < k implies entered(st.events@.subrange(0, a)).contains(#[trigger] nodes@[j]) by {
                            assert(nodes@[j] != nodes@[i as int]);
                            assert(pre0.visited@.contains(nodes@[j]));
                        }
                    }
                }
            }
            walk_from(g, &mut st, u, None);
            proof {
                assert forall|a: int, k: int| 0 <= a < st.events@.len() && 0 <= k < nodes@.len()
                    && #[trigger] st.events@[a] == Visit::Root(#[trigger] nodes@[k])
                    implies forall|j: int| 0 <= j < k ==> entered(st.events@.subrange(0, a)).contains(#[trigger] nodes@[j]) by {
                    if a < pre.events@.len() {
                        assert(st.events@.subrange(0, a) =~= pre.events@.subrange(0, a));
                        assert(pre.events@[a] == st.events@[a]);
                    } else {
                        assert(!(st.events@[a] is Root));
                    }
                }
            }
        }
        i = i + 1;
    }
    proof {
        g.lemma_graph_wf();
        assert forall|x: LineId| g.node_seq().contains(x) implies st.visited@.contains(x) by {
            let k = choose|k: int| 0 <= k < nodes@.len() && nodes@[k] == x;
        }
        assert forall|x: LineId| st.visited@.contains(x) implies g.node_seq().contains(x) by {
            assert(g.node_seq().to_set().contains(x));
        }
    }
    st.events
}

} // verus!
