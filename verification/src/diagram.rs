//! Read-only views of graphs and automata for drawing them: what to draw,
//! in which order, as plain values. Writing it out as text is left to the
//! caller.

use crate::dfa::DFAEdge;
use crate::dfa::DFANode;
use crate::dfa::DFA;
use crate::epsilon::closure;
use crate::epsilon::reachable_through_epsilon;
use crate::epsilon::silently_reaches;
use crate::graph::Edge;
use crate::graph::Graph;
use crate::node::Node;
use crate::node::NodeSet;
use crate::sets::lemma_prefix_ends;
use crate::sets::lemma_prefix_grows;
use crate::walk::is_walk;
use crate::walk::label;
use crate::walk::lemma_walk_join;
use crate::walk::lemma_walk_single;
use vstd::prelude::*;

verus! {

/// Whether some walk leads from `from` to `to`.
pub open spec fn connected(edges: Set<Edge>, from: Node, to: Node) -> bool {
    exists|p: Seq<Edge>| is_walk(edges, from, p, to)
}

/// The edge without its condition.
pub open spec fn unlabelled(e: Edge) -> Edge {
    Edge { condition: None, from: e.from, to: e.to }
}

/// The edges without their conditions.
pub open spec fn stripped(edges: Set<Edge>) -> Set<Edge> {
    edges.map(|e: Edge| unlabelled(e))
}

/// A walk stays a walk when the conditions are taken off its edges and
/// off the edges of the graph, and then it spells nothing.
proof fn lemma_walk_unlabelled(edges: Set<Edge>, a: Node, p: Seq<Edge>, b: Node)
    requires
        is_walk(edges, a, p, b),
    ensures
        silently_reaches(stripped(edges), a, b),
    decreases p.len(),
{
    let bare = stripped(edges);
    if p.len() == 0 {
        let none = Seq::<Edge>::empty();
        assert(is_walk(bare, a, none, b));
        assert(label(none) =~= Seq::<char>::empty());
    } else {
        lemma_walk_unlabelled(edges, p[0].to, p.drop_first(), b);
        let rest = choose|q: Seq<Edge>|
            is_walk(bare, p[0].to, q, b) && label(q) == Seq::<char>::empty();
        let first = unlabelled(p[0]);
        assert(edges.contains(p[0]));
        assert(bare.contains(first));
        lemma_walk_single(bare, first);
        lemma_walk_join(bare, a, seq![first], p[0].to, rest, b);
        assert(label(seq![first] + rest) =~= Seq::<char>::empty());
    }
}

/// A walk over the edges without their conditions has a walk over the
/// edges themselves between the same nodes.
proof fn lemma_walk_labelled_again(edges: Set<Edge>, a: Node, q: Seq<Edge>, b: Node)
    requires
        is_walk(stripped(edges), a, q, b),
    ensures
        connected(edges, a, b),
    decreases q.len(),
{
    let bare = stripped(edges);
    if q.len() == 0 {
        assert(is_walk(edges, a, Seq::<Edge>::empty(), b));
    } else {
        lemma_walk_labelled_again(edges, q[0].to, q.drop_first(), b);
        let rest = choose|p: Seq<Edge>| is_walk(edges, q[0].to, p, b);
        assert(bare.contains(q[0]));
        let first = choose|e: Edge| edges.contains(e) && unlabelled(e) == q[0];
        lemma_walk_single(edges, first);
        lemma_walk_join(edges, a, seq![first], q[0].to, rest, b);
    }
}

/// What a node is connected to is what it reaches silently once the
/// conditions are taken off the edges.
proof fn lemma_connected_is_closure(edges: Set<Edge>, from: Node)
    ensures
        forall|to: Node|
            connected(edges, from, to) <==> #[trigger] closure(stripped(edges), set![from]).contains(
                to,
            ),
{
    let bare = stripped(edges);
    assert forall|to: Node| connected(edges, from, to) <==> #[trigger] closure(
        bare,
        set![from],
    ).contains(to) by {
        if connected(edges, from, to) {
            let p = choose|p: Seq<Edge>| is_walk(edges, from, p, to);
            lemma_walk_unlabelled(edges, from, p, to);
            assert(set![from].contains(from));
        }
        if closure(bare, set![from]).contains(to) {
            let n = choose|n: Node| set![from].contains(n) && silently_reaches(bare, n, to);
            let q = choose|q: Seq<Edge>|
                is_walk(bare, from, q, to) && label(q) == Seq::<char>::empty();
            lemma_walk_labelled_again(edges, from, q, to);
        }
    }
}

/// The test that picks the edges which leave a node that `origin` is
/// connected to.
pub open spec fn leaves_connected(edges: Set<Edge>, origin: Node) -> spec_fn(Edge) -> bool {
    |e: Edge| connected(edges, origin, e.from)
}

/// One statement of the drawing of a graph.
#[derive(Debug, PartialEq, Eq, Structural, Clone, Copy)]
pub enum GraphLine {
    /// The node is an acceptor and is drawn bold.
    Bold(Node),
    /// The edge is drawn as an arrow with its condition as label.
    Arrow(Edge),
}

/// The bold marks for the nodes in order.
pub open spec fn bold_lines(nodes: Seq<Node>) -> Seq<GraphLine> {
    Seq::new(nodes.len(), |i: int| GraphLine::Bold(nodes[i]))
}

/// The arrows for the edges in order.
pub open spec fn arrow_lines(edges: Seq<Edge>) -> Seq<GraphLine> {
    Seq::new(edges.len(), |i: int| GraphLine::Arrow(edges[i]))
}

/// Taking the conditions off one more edge.
proof fn lemma_stripped_insert(edges: Set<Edge>, e: Edge)
    ensures
        stripped(edges.insert(e)) == stripped(edges).insert(unlabelled(e)),
        stripped(Set::<Edge>::empty()) == Set::<Edge>::empty(),
{
    let more = edges.insert(e);
    assert forall|x: Edge| stripped(more).contains(x) == stripped(edges).insert(
        unlabelled(e),
    ).contains(x) by {
        if stripped(more).contains(x) {
            let a = choose|a: Edge| more.contains(a) && x == unlabelled(a);
            if a != e {
                assert(edges.contains(a));
            }
        }
        if stripped(edges).contains(x) {
            let a = choose|a: Edge| edges.contains(a) && x == unlabelled(a);
            assert(more.contains(a));
        }
        if x == unlabelled(e) {
            assert(more.contains(e));
        }
    }
    assert(stripped(more) =~= stripped(edges).insert(unlabelled(e)));
    assert(stripped(Set::<Edge>::empty()) =~= Set::<Edge>::empty());
}

impl Graph {
    /// A copy of the graph whose edges carry no condition.
    fn without_conditions(&self) -> (bare: Graph)
        ensures
            bare.edges@ == stripped(self.edges@),
    {
        let mut bare = Graph::new(self.start);
        let total = self.edges.len();
        let mut j: usize = 0;
        proof {
            lemma_prefix_ends(self.edges.seq());
            lemma_stripped_insert(Set::empty(), Edge { condition: None, from: self.start, to: self.start });
        }
        while j < total
            invariant
                j <= total,
                total == self.edges.seq().len(),
                bare.edges@ == stripped(self.edges.seq().subrange(0, j as int).to_set()),
            decreases total - j,
        {
            let e = self.edges.get(j);
            proof {
                lemma_prefix_grows(self.edges.seq(), j as int);
                lemma_stripped_insert(self.edges.seq().subrange(0, j as int).to_set(), e);
            }
            bare.add_edge(None, e.from, e.to);
            j += 1;
        }
        proof {
            lemma_prefix_ends(self.edges.seq());
        }
        bare
    }

    /// The edges that leave a node which `current` is connected to, in the
    /// order of edges.
    pub fn traverse(&self, current: Node) -> (found: Vec<Edge>)
        ensures
            found@ == self.edges.seq().filter(leaves_connected(self.edges@, current)),
    {
        let bare = self.without_conditions();
        let mut origin = NodeSet::new();
        origin.insert(current);
        let reached = reachable_through_epsilon(&bare, &origin);
        let ghost picked = leaves_connected(self.edges@, current);
        proof {
            assert(origin@ =~= set![current]);
            lemma_connected_is_closure(self.edges@, current);
        }
        let mut found: Vec<Edge> = Vec::new();
        let total = self.edges.len();
        let mut j: usize = 0;
        proof {
            reveal(Seq::filter);
            assert(self.edges.seq().subrange(0, 0).filter(picked) =~= Seq::<Edge>::empty());
        }
        while j < total
            invariant
                j <= total,
                total == self.edges.seq().len(),
                picked == leaves_connected(self.edges@, current),
                forall|to: Node| connected(self.edges@, current, to) <==> reached@.contains(to),
                found@ == self.edges.seq().subrange(0, j as int).filter(picked),
            decreases total - j,
        {
            let e = self.edges.get(j);
            proof {
                reveal(Seq::filter);
                let upto = self.edges.seq().subrange(0, j + 1);
                assert(upto.drop_last() =~= self.edges.seq().subrange(0, j as int));
                assert(upto.last() == e);
                assert(picked(e) == reached@.contains(e.from));
            }
            if reached.contains(e.from) {
                found.push(e);
            }
            j += 1;
        }
        proof {
            lemma_prefix_ends(self.edges.seq());
        }
        found
    }

    /// The drawing of the graph: a bold mark for each acceptor in rising
    /// order, then an arrow for each edge that leaves a node which the
    /// start node is connected to, in the order of edges.
    pub fn dotty_print(&self) -> (lines: Vec<GraphLine>)
        ensures
            lines@ == bold_lines(self.acceptors.seq()) + arrow_lines(
                self.edges.seq().filter(leaves_connected(self.edges@, self.start)),
            ),
    {
        let mut lines: Vec<GraphLine> = Vec::new();
        let count = self.acceptors.len();
        let mut i: usize = 0;
        while i < count
            invariant
                i <= count,
                count == self.acceptors.seq().len(),
                lines@ == bold_lines(self.acceptors.seq().subrange(0, i as int)),
            decreases count - i,
        {
            lines.push(GraphLine::Bold(self.acceptors.get(i)));
            assert(lines@ =~= bold_lines(self.acceptors.seq().subrange(0, i + 1)));
            i += 1;
        }
        assert(self.acceptors.seq().subrange(0, count as int) =~= self.acceptors.seq());
        let edges = self.traverse(self.start);
        let mut j: usize = 0;
        while j < edges.len()
            invariant
                j <= edges@.len(),
                lines@ == bold_lines(self.acceptors.seq()) + arrow_lines(
                    edges@.subrange(0, j as int),
                ),
            decreases edges@.len() - j,
        {
            lines.push(GraphLine::Arrow(edges[j]));
            assert(lines@ =~= bold_lines(self.acceptors.seq()) + arrow_lines(
                edges@.subrange(0, j + 1),
            ));
            j += 1;
        }
        assert(edges@.subrange(0, edges@.len() as int) =~= edges@);
        lines
    }
}

/// One statement of the drawing of a deterministic automaton: the states
/// are named by their sets of nodes.
#[derive(Debug, PartialEq, Eq)]
pub enum DfaLine {
    /// The state accepts and is drawn bold.
    Bold(Vec<usize>),
    /// The transition is drawn as an arrow with its character as label.
    Arrow(Vec<usize>, Vec<usize>, char),
}

/// A statement of the drawing of an automaton as a mathematical value.
pub enum DfaMark {
    Bold(Seq<usize>),
    Arrow(Seq<usize>, Seq<usize>, char),
}

impl View for DfaLine {
    type V = DfaMark;

    open spec fn view(&self) -> DfaMark {
        match self {
            DfaLine::Bold(name) => DfaMark::Bold(name@),
            DfaLine::Arrow(from, to, c) => DfaMark::Arrow(from@, to@, *c),
        }
    }
}

/// The identities of the nodes in order.
pub open spec fn identities(nodes: Seq<Node>) -> Seq<usize> {
    Seq::new(nodes.len(), |i: int| nodes[i].id)
}

/// The statements for one transition: its arrow, then a bold mark for each
/// of its two states that accepts, the source first.
pub open spec fn marks_of(edge: DFAEdge) -> Seq<DfaMark> {
    let from = identities(edge.from.nodes.seq());
    let to = identities(edge.to.nodes.seq());
    seq![DfaMark::Arrow(from, to, edge.condition)] + (if edge.from.is_acceptor {
        seq![DfaMark::Bold(from)]
    } else {
        Seq::empty()
    }) + (if edge.to.is_acceptor {
        seq![DfaMark::Bold(to)]
    } else {
        Seq::empty()
    })
}

/// The statements for the first `upto` transitions of a list.
pub open spec fn marks(edges: Seq<DFAEdge>, upto: nat) -> Seq<DfaMark>
    decreases upto,
{
    if upto == 0 || upto > edges.len() {
        Seq::empty()
    } else {
        marks(edges, (upto - 1) as nat) + marks_of(edges[upto - 1])
    }
}

/// The lines as mathematical values.
pub open spec fn line_views(lines: Seq<DfaLine>) -> Seq<DfaMark> {
    Seq::new(lines.len(), |i: int| lines[i]@)
}

impl DFANode {
    /// The name of the state: the identities of its nodes in rising order.
    pub fn pretty_name(&self) -> (name: Vec<usize>)
        ensures
            name@ == identities(self.nodes.seq()),
    {
        let mut name: Vec<usize> = Vec::new();
        let count = self.nodes.len();
        let mut i: usize = 0;
        while i < count
            invariant
                i <= count,
                count == self.nodes.seq().len(),
                name@ == identities(self.nodes.seq().subrange(0, i as int)),
            decreases count - i,
        {
            name.push(self.nodes.get(i).id);
            assert(identities(self.nodes.seq().subrange(0, i + 1)) =~= identities(
                self.nodes.seq().subrange(0, i as int),
            ).push(self.nodes.seq()[i as int].id));
            i += 1;
        }
        assert(self.nodes.seq().subrange(0, count as int) =~= self.nodes.seq());
        name
    }
}

impl DFA {
    /// The drawing of the automaton: for each transition in order its
    /// arrow, followed by a bold mark for its source if that accepts and
    /// one for its target if that accepts.
    pub fn dotty_print(&self) -> (lines: Vec<DfaLine>)
        ensures
            line_views(lines@) == marks(self.edges@, self.edges@.len()),
    {
        let mut lines: Vec<DfaLine> = Vec::new();
        let mut i: usize = 0;
        assert(line_views(lines@) =~= Seq::<DfaMark>::empty());
        while i < self.edges.len()
            invariant
                i <= self.edges@.len(),
                line_views(lines@) == marks(self.edges@, i as nat),
            decreases self.edges@.len() - i,
        {
            let edge = &self.edges[i];
            let from = edge.from.pretty_name();
            let to = edge.to.pretty_name();
            let ghost before = line_views(lines@);
            let ghost from_name = from@;
            let ghost to_name = to@;
            if edge.from.is_acceptor && edge.to.is_acceptor {
                lines.push(DfaLine::Arrow(from.clone(), to.clone(), edge.condition));
                lines.push(DfaLine::Bold(from));
                lines.push(DfaLine::Bold(to));
            } else if edge.from.is_acceptor {
                lines.push(DfaLine::Arrow(from.clone(), to, edge.condition));
                lines.push(DfaLine::Bold(from));
            } else if edge.to.is_acceptor {
                lines.push(DfaLine::Arrow(from, to.clone(), edge.condition));
                lines.push(DfaLine::Bold(to));
            } else {
                lines.push(DfaLine::Arrow(from, to, edge.condition));
            }
            assert(line_views(lines@) =~= before + marks_of(self.edges@[i as int]));
            i += 1;
        }
        lines
    }
}

} // verus!
