use vstd::prelude::*;

use crate::graph::GraphRef;
use crate::line::{two_pow_64, LineId, Ranked};
use crate::multimap::{values_sorted, MMap};
use crate::ordset::OrdSet;

verus! {

/// A directed edge of a digle, stored at its source line.
///
/// Edges are ordered by `deleted` first, so that at any line the live edges come
/// before the deleted ones.
#[derive(Clone, Copy, Debug, PartialEq, Eq, Structural, PartialOrd, Ord, Hash)]
pub struct Edge {
    /// Whether the line at the other end is deleted.
    pub deleted: bool,
    /// The line at the other end.
    pub dest: LineId,
}

pub open spec fn two_pow_128() -> int {
    two_pow_64() * two_pow_64()
}

proof fn lemma_line_rank_bounds(l: LineId)
    ensures
        0 <= l.rank() < two_pow_128(),
{
    let (p, x) = (l.patch.0 as int, l.line as int);
    let b = two_pow_64();
    assert(0 <= p * b + x < b * b) by (nonlinear_arith)
        requires 0 <= p < b, 0 <= x < b;
}

impl Ranked for Edge {
    open spec fn rank(self) -> int {
        (if self.deleted { two_pow_128() } else { 0 }) + self.dest.rank()
    }

    proof fn lemma_rank_injective(a: Self, b: Self) {
        lemma_line_rank_bounds(a.dest);
        lemma_line_rank_bounds(b.dest);
        LineId::lemma_rank_injective(a.dest, b.dest);
    }

    fn less(&self, other: &Self) -> (r: bool) {
        proof {
            lemma_line_rank_bounds(self.dest);
            lemma_line_rank_bounds(other.dest);
        }
        (!self.deleted && other.deleted) || (self.deleted == other.deleted && self.dest.less(&other.dest))
    }

    fn same(&self, other: &Self) -> (r: bool) {
        *self == *other
    }
}

/// What a digle holds: its live lines, its deleted lines, and its edges twice,
/// once at their source and once, reversed, at their destination.
pub ghost struct DigleModel {
    pub lines: Set<LineId>,
    pub deleted_lines: Set<LineId>,
    pub edges: Set<(LineId, Edge)>,
    pub back_edges: Set<(LineId, Edge)>,
}

impl DigleModel {
    pub open spec fn known(self, l: LineId) -> bool {
        self.lines.contains(l) || self.deleted_lines.contains(l)
    }

    /// The edge to `l` as it is stored at a neighbour of `l`.
    pub open spec fn edge_to(self, l: LineId) -> Edge {
        Edge { deleted: self.deleted_lines.contains(l), dest: l }
    }

    /// Live and deleted lines are disjoint.
    pub open spec fn lines_disjoint(self) -> bool {
        forall|l: LineId| !(#[trigger] self.lines.contains(l) && self.deleted_lines.contains(l))
    }

    /// Every edge joins known lines, its flag says whether its destination is
    /// deleted, and the reversed edge is stored at the destination.
    pub open spec fn edges_consistent(self) -> bool {
        self.mirrored(self.edges, self.back_edges)
    }

    /// The same, seen from the back edges.
    pub open spec fn back_edges_consistent(self) -> bool {
        self.mirrored(self.back_edges, self.edges)
    }

    /// Every pair of `s` joins known lines, its flag says whether the line it
    /// points to is deleted, and the reversed pair is in `t`.
    pub open spec fn mirrored(self, s: Set<(LineId, Edge)>, t: Set<(LineId, Edge)>) -> bool {
        forall|u: LineId, e: Edge| #[trigger] s.contains((u, e)) ==> {
            &&& self.known(u)
            &&& self.known(e.dest)
            &&& e == self.edge_to(e.dest)
            &&& t.contains((e.dest, self.edge_to(u)))
        }
    }

    pub open spec fn consistent(self) -> bool {
        &&& self.lines_disjoint()
        &&& self.edges_consistent()
        &&& self.back_edges_consistent()
    }

    /// The live edges out of `u`.
    pub open spec fn live_out(self, u: LineId) -> Set<Edge> {
        Set::new(|e: Edge| self.edges.contains((u, e)) && !e.deleted)
    }

    pub open spec fn add_node(self, id: LineId) -> DigleModel {
        DigleModel { lines: self.lines.insert(id), ..self }
    }

    pub open spec fn unadd_node(self, id: LineId) -> DigleModel {
        DigleModel { lines: self.lines.remove(id), ..self }
    }

    pub open spec fn add_edge(self, from: LineId, to: LineId) -> DigleModel {
        DigleModel {
            edges: self.edges.insert((from, self.edge_to(to))),
            back_edges: self.back_edges.insert((to, self.edge_to(from))),
            ..self
        }
    }

    pub open spec fn unadd_edge(self, from: LineId, to: LineId) -> DigleModel {
        DigleModel {
            edges: self.edges.remove((from, self.edge_to(to))),
            back_edges: self.back_edges.remove((to, self.edge_to(from))),
            ..self
        }
    }

    pub open spec fn delete_node(self, id: LineId) -> DigleModel {
        DigleModel {
            lines: self.lines.remove(id),
            deleted_lines: self.deleted_lines.insert(id),
            edges: flip(self.edges, id, true),
            back_edges: flip(self.back_edges, id, true),
        }
    }

    pub open spec fn undelete_node(self, id: LineId) -> DigleModel {
        DigleModel {
            lines: self.lines.insert(id),
            deleted_lines: self.deleted_lines.remove(id),
            edges: flip(self.edges, id, false),
            back_edges: flip(self.back_edges, id, false),
        }
    }
}

/// Sets to `d` the flag of every stored edge that points to `id`.
pub open spec fn flip(s: Set<(LineId, Edge)>, id: LineId, d: bool) -> Set<(LineId, Edge)> {
    Set::new(|p: (LineId, Edge)|
        if p.1.dest == id {
            p.1.deleted == d && s.contains((p.0, Edge { deleted: !d, dest: id }))
        } else {
            s.contains(p)
        })
}

impl DigleModel {
    pub proof fn lemma_add_node_consistent(self, id: LineId)
        requires
            self.consistent(),
            !self.known(id),
        ensures
            self.add_node(id).consistent(),
    {
    }

    pub proof fn lemma_unadd_node_consistent(self, id: LineId)
        requires
            self.consistent(),
            self.lines.contains(id),
            forall|e: Edge| !self.edges.contains((id, e)),
            forall|e: Edge| !self.back_edges.contains((id, e)),
        ensures
            self.unadd_node(id).consistent(),
    {
    }

    pub proof fn lemma_add_edge_consistent(self, from: LineId, to: LineId)
        requires
            self.consistent(),
            self.known(from),
            self.known(to),
        ensures
            self.add_edge(from, to).consistent(),
    {
    }

    pub proof fn lemma_delete_node_consistent(self, id: LineId)
        requires
            self.consistent(),
            self.lines.contains(id),
        ensures
            self.delete_node(id).consistent(),
    {
    }

    pub proof fn lemma_undelete_node_consistent(self, id: LineId)
        requires
            self.consistent(),
            self.deleted_lines.contains(id),
        ensures
            self.undelete_node(id).consistent(),
    {
    }

    /// Undoing `add_node` restores the state.
    pub proof fn lemma_add_node_reversible(self, id: LineId)
        requires
            self.consistent(),
            !self.known(id),
        ensures
            self.add_node(id).unadd_node(id) == self,
    {
        assert(self.add_node(id).unadd_node(id).lines =~= self.lines);
    }

    /// Redoing a line's `add_node` after its `unadd_node` restores the state.
    pub proof fn lemma_unadd_node_reversible(self, id: LineId)
        requires
            self.consistent(),
            self.lines.contains(id),
        ensures
            self.unadd_node(id).add_node(id) == self,
    {
        assert(self.unadd_node(id).add_node(id).lines =~= self.lines);
    }

    /// Undeleting a line just deleted restores the state.
    pub proof fn lemma_delete_node_reversible(self, id: LineId)
        requires
            self.consistent(),
            self.lines.contains(id),
        ensures
            self.delete_node(id).undelete_node(id) == self,
    {
        let r = self.delete_node(id).undelete_node(id);
        assert(r.lines =~= self.lines);
        assert(r.deleted_lines =~= self.deleted_lines);
        assert(r.edges =~= self.edges);
        assert(r.back_edges =~= self.back_edges);
    }

    /// Deleting a line just undeleted restores the state.
    pub proof fn lemma_undelete_node_reversible(self, id: LineId)
        requires
            self.consistent(),
            self.deleted_lines.contains(id),
        ensures
            self.undelete_node(id).delete_node(id) == self,
    {
        let r = self.undelete_node(id).delete_node(id);
        assert(r.lines =~= self.lines);
        assert(r.deleted_lines =~= self.deleted_lines);
        assert(r.edges =~= self.edges);
        assert(r.back_edges =~= self.back_edges);
    }

    /// Taking out an edge just added restores the state, when the edge was new.
    pub proof fn lemma_add_edge_reversible(self, from: LineId, to: LineId)
        requires
            self.consistent(),
            self.known(from),
            self.known(to),
            !self.edges.contains((from, self.edge_to(to))),
        ensures
            self.add_edge(from, to).unadd_edge(from, to) == self,
    {
        let r = self.add_edge(from, to).unadd_edge(from, to);
        assert(r.edges =~= self.edges);
        assert(r.back_edges =~= self.back_edges);
    }

    /// Adding back an edge just taken out restores the state.
    pub proof fn lemma_unadd_edge_reversible(self, from: LineId, to: LineId)
        requires
            self.consistent(),
            self.edges.contains((from, self.edge_to(to))),
        ensures
            self.unadd_edge(from, to).add_edge(from, to) == self,
    {
        let r = self.unadd_edge(from, to).add_edge(from, to);
        assert(r.edges =~= self.edges);
        assert(r.back_edges =~= self.back_edges);
    }

    pub proof fn lemma_unadd_edge_consistent(self, from: LineId, to: LineId)
        requires
            self.consistent(),
        ensures
            self.unadd_edge(from, to).consistent(),
    {
    }
}

/// The state of a digle.
#[derive(Clone, Debug, PartialEq, Eq)]
pub struct DigleData {
    lines: OrdSet<LineId>,
    deleted_lines: OrdSet<LineId>,
    edges: MMap<LineId, Edge>,
    back_edges: MMap<LineId, Edge>,
}

impl View for DigleData {
    type V = DigleModel;

    closed spec fn view(&self) -> DigleModel {
        DigleModel {
            lines: self.lines@,
            deleted_lines: self.deleted_lines@,
            edges: self.edges@,
            back_edges: self.back_edges@,
        }
    }
}

impl DigleData {
    pub closed spec fn wf(&self) -> bool {
        &&& self.lines.wf()
        &&& self.deleted_lines.wf()
        &&& self.edges.wf()
        &&& self.back_edges.wf()
        &&& self@.consistent()
    }

    /// The four sequences as they are stored, each in ascending order.
    pub closed spec fn stored(&self) -> (Seq<LineId>, Seq<LineId>, Seq<(LineId, Edge)>, Seq<(LineId, Edge)>) {
        (self.lines.elements(), self.deleted_lines.elements(), self.edges.entries(), self.back_edges.entries())
    }

    pub fn new() -> (r: DigleData)
        ensures
            r.wf(),
            r@.lines == Set::<LineId>::empty(),
            r@.deleted_lines == Set::<LineId>::empty(),
            r@.edges == Set::<(LineId, Edge)>::empty(),
            r@.back_edges == Set::<(LineId, Edge)>::empty(),
    {
        DigleData {
            lines: OrdSet::new(),
            deleted_lines: OrdSet::new(),
            edges: MMap::new(),
            back_edges: MMap::new(),
        }
    }
}

/// A digle as four plain sequences, in the order in which it is stored: live
/// lines, deleted lines, edges and back edges.
#[derive(Clone, Debug, PartialEq, Eq)]
pub struct DigleParts {
    pub lines: Vec<LineId>,
    pub deleted_lines: Vec<LineId>,
    pub edges: Vec<(LineId, Edge)>,
    pub back_edges: Vec<(LineId, Edge)>,
}

impl DigleParts {
    /// What the sequences hold, with order and repeats forgotten.
    pub open spec fn model(&self) -> DigleModel {
        DigleModel {
            lines: Set::new(|l: LineId| self.lines@.contains(l)),
            deleted_lines: Set::new(|l: LineId| self.deleted_lines@.contains(l)),
            edges: Set::new(|p: (LineId, Edge)| self.edges@.contains(p)),
            back_edges: Set::new(|p: (LineId, Edge)| self.back_edges@.contains(p)),
        }
    }
}

impl DigleData {
    /// Whether the parts hold together; they need not, before `wf` is known.
    fn check_consistent(&self) -> (r: bool)
        requires
            self.lines.wf(),
            self.deleted_lines.wf(),
            self.edges.wf(),
            self.back_edges.wf(),
        ensures
            r == self@.consistent(),
    {
        let lines = self.lines.to_vec();
        let mut i: usize = 0;
        while i < lines.len()
            invariant
                i <= lines@.len(),
                self.deleted_lines.wf(),
                forall|l: LineId| lines@.contains(l) <==> self.lines@.contains(l),
                forall|j: int| 0 <= j < i ==> !self.deleted_lines@.contains(#[trigger] lines@[j]),
            decreases lines@.len() - i,
        {
            if self.deleted_lines.contains(&lines[i]) {
                assert(!self@.lines_disjoint()) by {
                    assert(lines@.contains(lines@[i as int]));
                    assert(self@.lines.contains(lines@[i as int]));
                    assert(self@.deleted_lines.contains(lines@[i as int]));
                }
                return false;
            }
            i = i + 1;
        }
        assert(self@.lines_disjoint()) by {
            assert forall|l: LineId| !(#[trigger] self@.lines.contains(l) && self@.deleted_lines.contains(l)) by {
                if self@.lines.contains(l) {
                    let j = choose|j: int| 0 <= j < lines@.len() && lines@[j] == l;
                }
            }
        }
        self.check_mirrored(&self.edges, &self.back_edges) && self.check_mirrored(&self.back_edges, &self.edges)
    }

    /// Whether every pair of `s` has its reverse in `t`, with both flags right.
    fn check_mirrored(&self, s: &MMap<LineId, Edge>, t: &MMap<LineId, Edge>) -> (r: bool)
        requires
            self.lines.wf(),
            self.deleted_lines.wf(),
            s.wf(),
            t.wf(),
        ensures
            r == self@.mirrored(s@, t@),
    {
        let pairs = s.iter();
        let mut i: usize = 0;
        while i < pairs.len()
            invariant
                i <= pairs@.len(),
                self.lines.wf(),
                self.deleted_lines.wf(),
                t.wf(),
                forall|p: (LineId, Edge)| pairs@.contains(p) <==> s@.contains(p),
                forall|j: int| 0 <= j < i ==> {
                    let (u, e) = #[trigger] pairs@[j];
                    &&& self@.known(u)
                    &&& self@.known(e.dest)
                    &&& e == self@.edge_to(e.dest)
                    &&& t@.contains((e.dest, self@.edge_to(u)))
                },
            decreases pairs@.len() - i,
        {
            let (u, e) = pairs[i];
            let u_live = self.lines.contains(&u);
            let u_deleted = self.deleted_lines.contains(&u);
            let v_live = self.lines.contains(&e.dest);
            let v_deleted = self.deleted_lines.contains(&e.dest);
            let ok = (u_live || u_deleted) && (v_live || v_deleted) && e.deleted == v_deleted
                && t.contains(&e.dest, &Edge { deleted: u_deleted, dest: u });
            if !ok {
                assert(!self@.mirrored(s@, t@)) by {
                    assert(pairs@.contains(pairs@[i as int]));
                    assert(s@.contains((u, e)));
                }
                return false;
            }
            i = i + 1;
        }
        assert forall|u: LineId, e: Edge| #[trigger] s@.contains((u, e)) implies {
            &&& self@.known(u)
            &&& self@.known(e.dest)
            &&& e == self@.edge_to(e.dest)
            &&& t@.contains((e.dest, self@.edge_to(u)))
        } by {
            assert(pairs@.contains((u, e)));
            let j = choose|j: int| 0 <= j < pairs@.len() && pairs@[j] == (u, e);
        }
        true
    }

    /// The digle as four plain sequences, each in ascending order.
    pub fn to_parts(&self) -> (r: DigleParts)
        requires
            self.wf(),
        ensures
            r.model() == self@,
            (r.lines@, r.deleted_lines@, r.edges@, r.back_edges@) == self.stored(),
    {
        let r = DigleParts {
            lines: self.lines.to_vec(),
            deleted_lines: self.deleted_lines.to_vec(),
            edges: self.edges.iter(),
            back_edges: self.back_edges.iter(),
        };
        assert(r.model().lines =~= self@.lines);
        assert(r.model().deleted_lines =~= self@.deleted_lines);
        assert(r.model().edges =~= self@.edges);
        assert(r.model().back_edges =~= self@.back_edges);
        r
    }

    /// Rebuilds a digle from its parts, in any order and with repeats allowed;
    /// `None` when the parts do not hold together.
    pub fn from_parts(p: &DigleParts) -> (r: Option<DigleData>)
        ensures
            r is Some <==> p.model().consistent(),
            r matches Some(d) ==> d.wf() && d@ == p.model(),
    {
        let d = DigleData {
            lines: OrdSet::from_vec(&p.lines),
            deleted_lines: OrdSet::from_vec(&p.deleted_lines),
            edges: MMap::from_pairs(&p.edges),
            back_edges: MMap::from_pairs(&p.back_edges),
        };
        assert(d@.lines =~= p.model().lines);
        assert(d@.deleted_lines =~= p.model().deleted_lines);
        assert(d@.edges =~= p.model().edges);
        assert(d@.back_edges =~= p.model().back_edges);
        if d.check_consistent() {
            Some(d)
        } else {
            None
        }
    }
}

/// Rebuilding a digle from its parts gives back the same digle.
pub proof fn lemma_parts_round_trip(d: &DigleData, p: &DigleParts, e: &DigleData)
    requires
        d.wf(),
        p.model() == d@,
        e.wf(),
        e@ == p.model(),
    ensures
        p.model().consistent(),
        e@ == d@,
        e.stored() == d.stored(),
{
    OrdSet::lemma_canonical(&e.lines, &d.lines);
    OrdSet::lemma_canonical(&e.deleted_lines, &d.deleted_lines);
    MMap::lemma_canonical(&e.edges, &d.edges);
    MMap::lemma_canonical(&e.back_edges, &d.back_edges);
}

/// A read-only view of a digle.
#[derive(Clone, Copy, Debug)]
pub struct Digle<'a> {
    data: &'a DigleData,
}

impl<'a> From<&'a DigleData> for Digle<'a> {
    fn from(d: &'a DigleData) -> (r: Digle<'a>) {
        Digle { data: d }
    }
}

impl<'a> vstd::std_specs::convert::FromSpecImpl<&'a DigleData> for Digle<'a> {
    open spec fn obeys_from_spec() -> bool {
        true
    }

    closed spec fn from_spec(d: &'a DigleData) -> Digle<'a> {
        Digle { data: d }
    }
}

impl<'a> Digle<'a> {
    pub closed spec fn model(&self) -> DigleModel {
        self.data@
    }

    pub closed spec fn wf(&self) -> bool {
        self.data.wf()
    }

    /// The live edges out of `line`, in ascending order.
    pub fn out_edges(&self, line: &LineId) -> (r: Vec<Edge>)
        requires
            self.wf(),
        ensures
            values_sorted(r@),
            forall|e: Edge| r@.contains(e) <==> self.model().live_out(*line).contains(e),
    {
        live_prefix(&self.data.edges.get(line))
    }

    /// Every edge out of `line`, the live ones first, in ascending order.
    pub fn all_out_edges(&self, line: &LineId) -> (r: Vec<Edge>)
        requires
            self.wf(),
        ensures
            values_sorted(r@),
            forall|e: Edge| r@.contains(e) <==> self.model().edges.contains((*line, e)),
    {
        self.data.edges.get(line)
    }

    /// The live edges into `line`, each given by its source, in ascending order.
    pub fn in_edges(&self, line: &LineId) -> (r: Vec<Edge>)
        requires
            self.wf(),
        ensures
            values_sorted(r@),
            forall|e: Edge| r@.contains(e) <==> (self.model().back_edges.contains((*line, e)) && !e.deleted),
    {
        live_prefix(&self.data.back_edges.get(line))
    }

    /// Every edge into `line`, each given by its source, in ascending order.
    pub fn all_in_edges(&self, line: &LineId) -> (r: Vec<Edge>)
        requires
            self.wf(),
        ensures
            values_sorted(r@),
            forall|e: Edge| r@.contains(e) <==> self.model().back_edges.contains((*line, e)),
    {
        self.data.back_edges.get(line)
    }

    /// As a graph, a well-formed digle has each known line once as a node, and
    /// an edge wherever one is stored, whatever its flag.
    pub proof fn lemma_graph_view(&self)
        requires
            self.wf(),
        ensures
            self.node_seq().no_duplicates(),
            self.node_seq().to_set() == self.model().lines + self.model().deleted_lines,
            forall|u: LineId, v: LineId| #[trigger] self.edge(u, v)
                <==> exists|d: bool| self.model().edges.contains((u, Edge { deleted: d, dest: v })),
    {
        self.data.lines.lemma_elements();
        self.data.deleted_lines.lemma_elements();
        let (a, b) = (self.data.lines.elements(), self.data.deleted_lines.elements());
        let s = a + b;
        assert forall|i: int, j: int| 0 <= i < j < s.len() implies s[i] != s[j] by {
            if j >= a.len() && i < a.len() {
                assert(a[i] == s[i]);
                assert(b[j - a.len()] == s[j]);
                assert(a.contains(s[i]));
                assert(b.contains(s[j]));
                assert(self.data@.lines.contains(s[i]));
                assert(self.data@.deleted_lines.contains(s[j]));
            } else if j < a.len() {
                assert(a[i] != a[j]);
            } else {
                assert(b[i - a.len()] != b[j - a.len()]);
            }
        }
        assert forall|x: LineId| s.contains(x) <==> self.data@.known(x) by {
            if a.contains(x) {
                let i = choose|i: int| 0 <= i < a.len() && a[i] == x;
                assert(s[i] == x);
            }
            if b.contains(x) {
                let i = choose|i: int| 0 <= i < b.len() && b[i] == x;
                assert(s[a.len() + i] == x);
            }
            if s.contains(x) {
                let i = choose|i: int| 0 <= i < s.len() && s[i] == x;
                if i < a.len() {
                    assert(a.contains(x));
                } else {
                    assert(b[i - a.len()] == x);
                    assert(b.contains(x));
                }
            }
        }
        assert(self.node_seq().to_set() =~= self.model().lines + self.model().deleted_lines);
    }

    /// Checks that the digle holds together. A `Digle` is always well-formed,
    /// so this always answers `true`; to check parts of unknown origin, use
    /// `DigleData::from_parts`.
    pub fn assert_consistent(&self) -> (r: bool)
        requires
            self.wf(),
        ensures
            r,
            self.model().consistent(),
    {
        self.data.check_consistent()
    }

    /// Whether a known line is live.
    pub fn is_live(&self, line: &LineId) -> (r: bool)
        requires
            self.wf(),
            self.model().known(*line),
        ensures
            r == self.model().lines.contains(*line),
    {
        self.data.lines.contains(line)
    }
}

/// The longest prefix of a sorted run of edges whose edges are live; since live
/// edges sort first, these are all the live edges of the run.
fn live_prefix(v: &Vec<Edge>) -> (r: Vec<Edge>)
    requires
        values_sorted(v@),
    ensures
        values_sorted(r@),
        forall|e: Edge| r@.contains(e) <==> (v@.contains(e) && !e.deleted),
{
    let mut r: Vec<Edge> = Vec::new();
    let mut i: usize = 0;
    while i < v.len() && !v[i].deleted
        invariant
            i <= v@.len(),
            r@ == v@.subrange(0, i as int),
            forall|j: int| 0 <= j < i ==> !(#[trigger] v@[j]).deleted,
        decreases v@.len() - i,
    {
        r.push(v[i]);
        i = i + 1;
    }
    assert forall|e: Edge| r@.contains(e) <==> (v@.contains(e) && !e.deleted) by {
        if v@.contains(e) && !e.deleted {
            let j = choose|j: int| 0 <= j < v@.len() && v@[j] == e;
            if j >= i {
                lemma_line_rank_bounds(v@[i as int].dest);
                lemma_line_rank_bounds(e.dest);
                if j > i {
                    assert(v@[i as int].rank() < v@[j].rank());
                }
                assert(false);
            }
            assert(r@[j] == e);
        }
        if r@.contains(e) {
            let j = choose|j: int| 0 <= j < r@.len() && r@[j] == e;
            assert(v@[j] == e);
        }
    }
    r
}

/// Heads of the given edges, in the same order.
fn dests(v: &Vec<Edge>) -> (r: Vec<LineId>)
    ensures
        r@ == v@.map_values(|e: Edge| e.dest),
{
    let mut r: Vec<LineId> = Vec::new();
    let mut i: usize = 0;
    while i < v.len()
        invariant
            i <= v@.len(),
            r@ == v@.subrange(0, i as int).map_values(|e: Edge| e.dest),
        decreases v@.len() - i,
    {
        r.push(v[i].dest);
        proof {
            assert(v@.subrange(0, i + 1).map_values(|e: Edge| e.dest) =~= v@.subrange(0, i as int).map_values(|e: Edge| e.dest).push(v@[i as int].dest));
        }
        i = i + 1;
    }
    assert(v@.subrange(0, i as int) =~= v@);
    r
}

/// As a graph, a digle has all its lines as nodes, live ones first, and all its
/// edges, live or not.
impl<'a> GraphRef for Digle<'a> {
    closed spec fn node_seq(&self) -> Seq<LineId> {
        self.data.lines.elements() + self.data.deleted_lines.elements()
    }

    closed spec fn edge(&self, u: LineId, v: LineId) -> bool {
        exists|d: bool| self.data@.edges.contains((u, Edge { deleted: d, dest: v }))
    }

    closed spec fn graph_wf(&self) -> bool {
        self.data.wf()
    }

    proof fn lemma_graph_wf(&self) {
        self.lemma_graph_view();
        assert forall|u: LineId, v: LineId| #[trigger] self.edge(u, v) implies self.node_seq().contains(u) && self.node_seq().contains(v) by {
            let d = choose|d: bool| self.model().edges.contains((u, Edge { deleted: d, dest: v }));
            assert(self.node_seq().to_set().contains(u));
            assert(self.node_seq().to_set().contains(v));
        }
    }

    fn nodes(&self) -> (r: Vec<LineId>) {
        let mut r = self.data.lines.to_vec();
        let mut d = self.data.deleted_lines.to_vec();
        r.append(&mut d);
        r
    }

    fn out_neighbors(&self, u: &LineId) -> (r: Vec<LineId>) {
        let es = self.all_out_edges(u);
        let r = dests(&es);
        proof {
            assert forall|v: LineId| r@.contains(v) <==> self.edge(*u, v) by {
                if r@.contains(v) {
                    let i = choose|i: int| 0 <= i < r@.len() && r@[i] == v;
                    assert(es@.contains(es@[i]));
                    assert(self.data@.edges.contains((*u, Edge { deleted: es@[i].deleted, dest: v })));
                }
                if self.edge(*u, v) {
                    let d = choose|d: bool| self.data@.edges.contains((*u, Edge { deleted: d, dest: v }));
                    assert(es@.contains(Edge { deleted: d, dest: v }));
                    let i = choose|i: int| 0 <= i < es@.len() && es@[i] == Edge { deleted: d, dest: v };
                    assert(r@[i] == v);
                }
            }
        }
        r
    }

    fn in_neighbors(&self, u: &LineId) -> (r: Vec<LineId>) {
        let es = self.all_in_edges(u);
        let r = dests(&es);
        proof {
            let m = self.data@;
            assert forall|v: LineId| r@.contains(v) <==> self.edge(v, *u) by {
                if r@.contains(v) {
                    let i = choose|i: int| 0 <= i < r@.len() && r@[i] == v;
                    assert(es@.contains(es@[i]));
                    assert(m.back_edges.contains((*u, es@[i])));
                    assert(m.edges.contains((v, m.edge_to(*u))));
                }
                if self.edge(v, *u) {
                    let d = choose|d: bool| m.edges.contains((v, Edge { deleted: d, dest: *u }));
                    assert(m.back_edges.contains((*u, m.edge_to(v))));
                    assert(es@.contains(m.edge_to(v)));
                    let i = choose|i: int| 0 <= i < es@.len() && es@[i] == m.edge_to(v);
                    assert(r@[i] == v);
                }
            }
        }
        r
    }
}

/// Sets to `d` the flag of the edges that point to `id` and are stored at the
/// keys in `k`.
pub open spec fn flip_at(s: Set<(LineId, Edge)>, id: LineId, d: bool, k: Set<LineId>) -> Set<(LineId, Edge)> {
    Set::new(|p: (LineId, Edge)|
        if p.1.dest == id && k.contains(p.0) {
            p.1.deleted == d && s.contains((p.0, Edge { deleted: !d, dest: id }))
        } else {
            s.contains(p)
        })
}

/// Re-flags the stored edge from `src` to `dst`: the flag is part of the
/// order, so the edge is taken out and put back with flag `delete`.
fn mark_edge(map: &mut MMap<LineId, Edge>, src: LineId, dst: LineId, delete: bool)
    requires
        old(map).wf(),
    ensures
        final(map).wf(),
        final(map)@ == old(map)@.remove((src, Edge { deleted: !delete, dest: dst })).insert((src, Edge { deleted: delete, dest: dst })),
{
    map.remove(&src, &Edge { deleted: !delete, dest: dst });
    map.insert(src, Edge { deleted: delete, dest: dst });
}

/// Re-flags, at each neighbour named in `at`, the stored edge that points to `id`.
/// The flag is part of the order, so each edge is taken out and put back.
fn flip_edges(map: &mut MMap<LineId, Edge>, at: &Vec<Edge>, id: LineId, d: bool)
    requires
        old(map).wf(),
        forall|j: int| 0 <= j < at@.len() ==> old(map)@.contains((#[trigger] at@[j].dest, Edge { deleted: !d, dest: id })),
        forall|k: LineId, e: Edge| #[trigger] old(map)@.contains((k, e)) && e.dest == id ==> e.deleted == !d
            && exists|j: int| 0 <= j < at@.len() && at@[j].dest == k,
    ensures
        final(map).wf(),
        final(map)@ == flip(old(map)@, id, d),
{
    let ghost m0 = old(map)@;
    let mut i: usize = 0;
    while i < at.len()
        invariant
            i <= at@.len(),
            map.wf(),
            forall|j: int| 0 <= j < at@.len() ==> m0.contains((#[trigger] at@[j].dest, Edge { deleted: !d, dest: id })),
            map@ == flip_at(m0, id, d, Set::new(|k: LineId| exists|j: int| 0 <= j < i && at@[j].dest == k)),
        decreases at@.len() - i,
    {
        let o = at[i].dest;
        let ghost before = Set::new(|k: LineId| exists|j: int| 0 <= j < i && at@[j].dest == k);
        let ghost after = Set::new(|k: LineId| exists|j: int| 0 <= j < i + 1 && at@[j].dest == k);
        mark_edge(map, o, id, d);
        proof {
            assert(after =~= before.insert(o)) by {
                assert forall|k: LineId| after.contains(k) implies before.insert(o).contains(k) by {
                    let j = choose|j: int| 0 <= j < i + 1 && at@[j].dest == k;
                    if j < i {
                        assert(before.contains(k));
                    }
                }
                assert forall|k: LineId| before.insert(o).contains(k) implies after.contains(k) by {
                    if k == o {
                        assert(at@[i as int].dest == k);
                    } else {
                        let j = choose|j: int| 0 <= j < i && at@[j].dest == k;
                        assert(0 <= j < i + 1 && at@[j].dest == k);
                    }
                }
            }
            assert(map@ =~= flip_at(m0, id, d, after));
        }
        i = i + 1;
    }
    proof {
        let k = Set::new(|k: LineId| exists|j: int| 0 <= j < i && at@[j].dest == k);
        assert forall|p: (LineId, Edge)| map@.contains(p) == flip(m0, id, d).contains(p) by {
            if p.1.dest == id && !k.contains(p.0) {
                if m0.contains(p) {
                    let j = choose|j: int| 0 <= j < at@.len() && at@[j].dest == p.0;
                    assert(k.contains(p.0));
                }
                if m0.contains((p.0, Edge { deleted: !d, dest: id })) {
                    let j = choose|j: int| 0 <= j < at@.len() && at@[j].dest == p.0;
                    assert(k.contains(p.0));
                }
            }
        }
        assert(map@ =~= flip(m0, id, d));
    }
}

/// A mutable view of a digle, through which its lines and edges change.
#[derive(Debug)]
pub struct DigleMut<'a> {
    data: &'a mut DigleData,
}

impl<'a> DigleMut<'a> {
    pub fn new(data: &'a mut DigleData) -> (r: DigleMut<'a>)
        ensures
            r.model() == old(data)@,
            r.wf() == old(data).wf(),
    {
        DigleMut { data }
    }

    pub closed spec fn model(&self) -> DigleModel {
        (*self.data)@
    }

    pub closed spec fn wf(&self) -> bool {
        (*self.data).wf()
    }

    /// A well-formed digle keeps its lines disjoint and its edges mirrored.
    pub proof fn lemma_wf_consistent(&self)
        requires
            self.wf(),
        ensures
            self.model().consistent(),
    {
    }

    pub fn as_digle<'b>(&'b self) -> (r: Digle<'b>)
        ensures
            r.model() == self.model(),
            r.wf() == self.wf(),
    {
        Digle { data: &*self.data }
    }

    /// Adds a new live line.
    pub fn add_node(&mut self, id: LineId)
        requires
            old(self).wf(),
            !old(self).model().known(id),
        ensures
            final(self).wf(),
            final(self).model() == old(self).model().add_node(id),
    {
        proof { old(self).model().lemma_add_node_consistent(id); }
        self.data.lines.insert(id);
    }

    /// Takes out a live line that no edge touches.
    pub fn unadd_node(&mut self, id: &LineId)
        requires
            old(self).wf(),
            old(self).model().lines.contains(*id),
            forall|e: Edge| !old(self).model().edges.contains((*id, e)),
            forall|e: Edge| !old(self).model().back_edges.contains((*id, e)),
        ensures
            final(self).wf(),
            final(self).model() == old(self).model().unadd_node(*id),
    {
        proof { old(self).model().lemma_unadd_node_consistent(*id); }
        self.data.lines.remove(id);
    }

    /// Tombstones a live line, and flags every edge that touches it.
    pub fn delete_node(&mut self, id: &LineId)
        requires
            old(self).wf(),
            old(self).model().lines.contains(*id),
        ensures
            final(self).wf(),
            final(self).model() == old(self).model().delete_node(*id),
    {
        self.set_deleted(id, true);
    }

    /// Brings a tombstoned line back, and clears the flag of every edge that
    /// touches it.
    pub fn undelete_node(&mut self, id: &LineId)
        requires
            old(self).wf(),
            old(self).model().deleted_lines.contains(*id),
        ensures
            final(self).wf(),
            final(self).model() == old(self).model().undelete_node(*id),
    {
        self.set_deleted(id, false);
    }

    fn set_deleted(&mut self, id: &LineId, d: bool)
        requires
            old(self).wf(),
            if d { old(self).model().lines.contains(*id) } else { old(self).model().deleted_lines.contains(*id) },
        ensures
            final(self).wf(),
            final(self).model() == if d { old(self).model().delete_node(*id) } else { old(self).model().undelete_node(*id) },
    {
        let ghost m0 = self.model();
        let outs = self.data.edges.get(id);
        let ins = self.data.back_edges.get(id);
        if d {
            self.data.lines.remove(id);
            self.data.deleted_lines.insert(*id);
        } else {
            self.data.deleted_lines.remove(id);
            self.data.lines.insert(*id);
        }
        proof {
            assert(m0.edge_to(*id) == Edge { deleted: !d, dest: *id });
            assert forall|k: LineId, e: Edge| #[trigger] m0.back_edges.contains((k, e)) && e.dest == *id implies e.deleted == !d
                && exists|j: int| 0 <= j < outs@.len() && outs@[j].dest == k by {
                assert(outs@.contains(m0.edge_to(k)));
                let j = choose|j: int| 0 <= j < outs@.len() && outs@[j] == m0.edge_to(k);
                assert(outs@[j].dest == k);
            }
            assert forall|k: LineId, e: Edge| #[trigger] m0.edges.contains((k, e)) && e.dest == *id implies e.deleted == !d
                && exists|j: int| 0 <= j < ins@.len() && ins@[j].dest == k by {
                assert(ins@.contains(m0.edge_to(k)));
                let j = choose|j: int| 0 <= j < ins@.len() && ins@[j] == m0.edge_to(k);
                assert(ins@[j].dest == k);
            }
            assert forall|j: int| 0 <= j < outs@.len() implies m0.back_edges.contains((#[trigger] outs@[j].dest, Edge { deleted: !d, dest: *id })) by {
                assert(outs@.contains(outs@[j]));
                assert(m0.edges.contains((*id, outs@[j])));
            }
            assert forall|j: int| 0 <= j < ins@.len() implies m0.edges.contains((#[trigger] ins@[j].dest, Edge { deleted: !d, dest: *id })) by {
                assert(ins@.contains(ins@[j]));
                assert(m0.back_edges.contains((*id, ins@[j])));
            }
        }
        assert(self.data.back_edges@ == m0.back_edges);
        assert(self.data.edges@ == m0.edges);
        flip_edges(&mut self.data.back_edges, &outs, *id, d);
        flip_edges(&mut self.data.edges, &ins, *id, d);
        proof {
            if d {
                m0.lemma_delete_node_consistent(*id);
            } else {
                m0.lemma_undelete_node_consistent(*id);
            }
        }
    }

    /// Adds an edge between known lines; nothing changes if it is there already.
    pub fn add_edge(&mut self, from: LineId, to: LineId)
        requires
            old(self).wf(),
            old(self).model().known(from),
            old(self).model().known(to),
        ensures
            final(self).wf(),
            final(self).model() == old(self).model().add_edge(from, to),
    {
        proof { old(self).model().lemma_add_edge_consistent(from, to); }
        let from_deleted = !self.data.lines.contains(&from);
        let to_deleted = !self.data.lines.contains(&to);
        self.data.edges.insert(from, Edge { deleted: to_deleted, dest: to });
        self.data.back_edges.insert(to, Edge { deleted: from_deleted, dest: from });
    }

    /// Takes out the edge between two known lines, if there is one.
    pub fn unadd_edge(&mut self, from: &LineId, to: &LineId)
        requires
            old(self).wf(),
            old(self).model().known(*from),
            old(self).model().known(*to),
        ensures
            final(self).wf(),
            final(self).model() == old(self).model().unadd_edge(*from, *to),
    {
        proof { old(self).model().lemma_unadd_edge_consistent(*from, *to); }
        let from_deleted = !self.data.lines.contains(from);
        let to_deleted = !self.data.lines.contains(to);
        self.data.edges.remove(from, &Edge { deleted: to_deleted, dest: *to });
        self.data.back_edges.remove(to, &Edge { deleted: from_deleted, dest: *from });
    }
}

} // verus!
