//! Epsilon elimination: an equivalent graph without epsilon edges.

use crate::graph::Edge;
use crate::graph::EdgeSet;
use crate::graph::Graph;
use crate::node::Node;
use crate::node::NodeSet;
use crate::walk::is_walk;
use crate::walk::label;
use crate::walk::lemma_labelled_walk;
use crate::walk::lemma_silent_walk;
use crate::walk::lemma_walk_join;
use crate::walk::lemma_walk_single;
use crate::walk::reaches;
use crate::walk::Nfa;
use crate::sets::lemma_prefix_ends;
use crate::sets::lemma_prefix_grows;
use vstd::prelude::*;

verus! {

/// Whether `to` can be reached from `from` along epsilon edges alone; every
/// node reaches itself so.
pub open spec fn silently_reaches(edges: Set<Edge>, from: Node, to: Node) -> bool {
    reaches(edges, from, Seq::<char>::empty(), to)
}

/// The epsilon closure of a set of nodes: all nodes that some member
/// reaches along epsilon edges alone.
pub open spec fn closure(edges: Set<Edge>, nodes: Set<Node>) -> Set<Node> {
    Set::new(|m: Node| exists|n: Node| nodes.contains(n) && silently_reaches(edges, n, m))
}

/// The labelled edges that leave `from` once the labelled edges of every
/// node of `via` are taken to leave `from` itself.
pub open spec fn lifted(edges: Set<Edge>, from: Node, via: Set<Node>) -> Set<Edge> {
    Set::new(
        |e: Edge|
            e.condition is Some && e.from == from && exists|m: Node|
                via.contains(m) && edges.contains(Edge { condition: e.condition, from: m, to: e.to }),
    )
}

/// The graph without epsilon edges that stands for `g`: a labelled edge
/// leaves a node for each labelled edge that leaves a node of its epsilon
/// closure, and a node is an acceptor when its closure holds one.
pub open spec fn eliminated(g: Nfa) -> Nfa {
    Nfa {
        start: g.start,
        edges: Set::new(|e: Edge| lifted(g.edges, e.from, closure(g.edges, set![e.from])).contains(e)),
        acceptors: Set::new(|n: Node| !closure(g.edges, set![n]).disjoint(g.acceptors)),
    }
}

/// The nodes that edges lead to.
pub open spec fn targets(edges: Set<Edge>) -> Set<Node> {
    edges.map(|e: Edge| e.to)
}

/// One more epsilon edge extends what is reached silently.
pub proof fn lemma_silent_step(edges: Set<Edge>, n: Node, e: Edge)
    requires
        silently_reaches(edges, n, e.from),
        edges.contains(e),
        e.condition is None,
    ensures
        silently_reaches(edges, n, e.to),
{
    let p = choose|p: Seq<Edge>| is_walk(edges, n, p, e.from) && label(p) == Seq::<char>::empty();
    lemma_walk_single(edges, e);
    lemma_walk_join(edges, n, p, e.from, seq![e], e.to);
    assert(label(p + seq![e]) =~= Seq::<char>::empty());
}

/// Every node reaches itself silently.
pub proof fn lemma_silent_self(edges: Set<Edge>, n: Node)
    ensures
        silently_reaches(edges, n, n),
{
    let p = Seq::<Edge>::empty();
    assert(is_walk(edges, n, p, n));
    assert(label(p) =~= Seq::<char>::empty());
}

/// A set of nodes that epsilon edges do not lead out of holds everything
/// that its members reach silently.
pub proof fn lemma_closed_holds_reach(
    edges: Set<Edge>,
    closed: Set<Node>,
    n: Node,
    path: Seq<Edge>,
    m: Node,
)
    requires
        closed.contains(n),
        is_walk(edges, n, path, m),
        label(path).len() == 0,
        forall|e: Edge|
            edges.contains(e) && e.condition is None && closed.contains(e.from)
                ==> closed.contains(e.to),
    ensures
        closed.contains(m),
    decreases path.len(),
{
    if path.len() > 0 {
        lemma_silent_walk(path, 0);
        lemma_closed_holds_reach(edges, closed, path[0].to, path.drop_first(), m);
    }
}

/// Whether `reached` lies between `nodes` and its epsilon closure.
#[verifier::opaque]
pub open spec fn partial_closure(edges: Set<Edge>, nodes: Set<Node>, reached: Set<Node>) -> bool {
    &&& nodes.subset_of(reached)
    &&& reached.subset_of(closure(edges, nodes))
    &&& reached.subset_of(nodes + targets(edges))
}

/// Whether every epsilon edge that leaves a node of `reached` leads into
/// `reached`, but for the edges that leave a node of `open`.
#[verifier::opaque]
pub open spec fn settled(edges: Set<Edge>, reached: Set<Node>, open: Set<Node>) -> bool {
    forall|e: Edge|
        edges.contains(e) && e.condition is None && reached.contains(e.from) && !open.contains(
            e.from,
        ) ==> reached.contains(e.to)
}

/// Whether the epsilon edges that leave `m`, among the first `upto` of
/// `list`, lead into `reached`.
#[verifier::opaque]
pub open spec fn visited(list: Seq<Edge>, upto: int, m: Node, reached: Set<Node>) -> bool {
    forall|i: int|
        0 <= i < upto && i < list.len() && (#[trigger] list[i]).condition is None && list[i].from
            == m ==> reached.contains(list[i].to)
}

proof fn lemma_closure_begin(edges: Set<Edge>, nodes: Seq<Node>)
    requires
        edges.finite(),
    ensures
        partial_closure(edges, nodes.to_set(), nodes.to_set()),
        settled(edges, nodes.to_set(), nodes.to_set()),
        (nodes.to_set() + targets(edges)).finite(),
{
    reveal(partial_closure);
    reveal(settled);
    edges.lemma_map_finite(|e: Edge| e.to);
    vstd::seq_lib::seq_to_set_is_finite(nodes);
    assert forall|m: Node| nodes.to_set().contains(m) implies closure(
        edges,
        nodes.to_set(),
    ).contains(m) by {
        lemma_silent_self(edges, m);
    }
}

proof fn lemma_closure_visit(
    edges: Set<Edge>,
    nodes: Set<Node>,
    reached: Set<Node>,
    waiting: Seq<Node>,
    list: Seq<Edge>,
)
    requires
        settled(edges, reached, waiting.to_set()),
        waiting.len() > 0,
    ensures
        settled(edges, reached, waiting.drop_last().to_set().insert(waiting.last())),
        visited(list, 0, waiting.last(), reached),
{
    reveal(settled);
    reveal(visited);
    assert forall|n: Node| waiting.to_set().contains(n) implies waiting.drop_last().to_set().insert(
        waiting.last(),
    ).contains(n) by {
        let i = choose|i: int| 0 <= i < waiting.len() && waiting[i] == n;
        if i < waiting.len() - 1 {
            assert(waiting.drop_last()[i] == n);
        }
    }
}

proof fn lemma_closure_skip(list: Seq<Edge>, j: int, m: Node, reached: Set<Node>)
    requires
        visited(list, j, m, reached),
        0 <= j < list.len(),
        !(list[j].condition is None && list[j].from == m) || reached.contains(list[j].to),
    ensures
        visited(list, j + 1, m, reached),
{
    reveal(visited);
}

proof fn lemma_closure_grow(
    edges: Set<Edge>,
    nodes: Set<Node>,
    reached: Set<Node>,
    queue: Seq<Node>,
    m: Node,
    list: Seq<Edge>,
    j: int,
)
    requires
        partial_closure(edges, nodes, reached),
        settled(edges, reached, queue.to_set().insert(m)),
        visited(list, j, m, reached),
        reached.contains(m),
        0 <= j < list.len(),
        edges.contains(list[j]),
        list[j].condition is None,
        list[j].from == m,
    ensures
        partial_closure(edges, nodes, reached.insert(list[j].to)),
        settled(edges, reached.insert(list[j].to), queue.push(list[j].to).to_set().insert(m)),
        visited(list, j + 1, m, reached.insert(list[j].to)),
{
    reveal(partial_closure);
    reveal(settled);
    reveal(visited);
    let e = list[j];
    assert(targets(edges).contains(e.to));
    assert(closure(edges, nodes).contains(m));
    let n = choose|n: Node| nodes.contains(n) && silently_reaches(edges, n, m);
    lemma_silent_step(edges, n, e);
    assert(closure(edges, nodes).contains(e.to));
    let open = queue.push(e.to).to_set().insert(m);
    assert(queue.push(e.to)[queue.len() as int] == e.to);
    assert(open.contains(e.to));
    assert forall|x: Node| queue.to_set().insert(m).contains(x) implies open.contains(x) by {
        if queue.contains(x) {
            let i = choose|i: int| 0 <= i < queue.len() && queue[i] == x;
            assert(queue.push(e.to)[i] == x);
        }
    }
}

proof fn lemma_closure_leave(
    edges: Set<Edge>,
    reached: Set<Node>,
    queue: Seq<Node>,
    m: Node,
    list: Seq<Edge>,
)
    requires
        settled(edges, reached, queue.to_set().insert(m)),
        visited(list, list.len() as int, m, reached),
        list.to_set() == edges,
    ensures
        settled(edges, reached, queue.to_set()),
{
    reveal(settled);
    reveal(visited);
    assert forall|e: Edge|
        edges.contains(e) && e.condition is None && reached.contains(e.from)
            && !queue.to_set().contains(e.from) implies reached.contains(e.to) by {
        if e.from == m {
            assert(list.contains(e));
            let i = choose|i: int| 0 <= i < list.len() && list[i] == e;
            assert(list[i].condition is None);
        }
    }
}

proof fn lemma_closure_end(edges: Set<Edge>, nodes: Set<Node>, reached: Set<Node>)
    requires
        partial_closure(edges, nodes, reached),
        settled(edges, reached, Seq::<Node>::empty().to_set()),
    ensures
        reached == closure(edges, nodes),
{
    reveal(partial_closure);
    reveal(settled);
    assert forall|x: Node| closure(edges, nodes).contains(x) implies reached.contains(x) by {
        let n = choose|n: Node| nodes.contains(n) && silently_reaches(edges, n, x);
        let p = choose|p: Seq<Edge>| is_walk(edges, n, p, x) && label(p) == Seq::<char>::empty();
        lemma_closed_holds_reach(edges, reached, n, p, x);
    }
    assert(reached =~= closure(edges, nodes));
}

proof fn lemma_closure_bound(edges: Set<Edge>, nodes: Set<Node>, reached: Set<Node>)
    requires
        partial_closure(edges, nodes, reached),
        (nodes + targets(edges)).finite(),
    ensures
        reached.len() <= (nodes + targets(edges)).len(),
        reached.finite(),
{
    reveal(partial_closure);
    vstd::set_lib::lemma_len_subset(reached, nodes + targets(edges));
}

/// The nodes that the members of `nodes` reach along epsilon edges alone,
/// the members themselves among them.
pub fn reachable_through_epsilon(graph: &Graph, nodes: &NodeSet) -> (reached: NodeSet)
    ensures
        reached@ == closure(graph.edges@, nodes@),
{
    let ghost edges = graph.edges@;
    let ghost universe = nodes@ + targets(edges);
    let mut reached = nodes.clone();
    let mut pending: Vec<Node> = Vec::new();
    let count = nodes.len();
    let mut k: usize = 0;
    while k < count
        invariant
            k <= count,
            count == nodes.seq().len(),
            pending@ == nodes.seq().subrange(0, k as int),
        decreases count - k,
    {
        pending.push(nodes.get(k));
        k += 1;
        assert(nodes.seq().subrange(0, k as int) =~= nodes.seq().subrange(0, k - 1).push(
            nodes.seq()[k - 1],
        ));
    }
    assert(pending@ =~= nodes.seq());
    let total = graph.edges.len();
    proof {
        vstd::seq_lib::seq_to_set_is_finite(graph.edges.seq());
        lemma_closure_begin(edges, nodes.seq());
    }
    while pending.len() > 0
        invariant
            edges == graph.edges@,
            universe == nodes@ + targets(edges),
            universe.finite(),
            total == graph.edges.seq().len(),
            partial_closure(edges, nodes@, reached@),
            settled(edges, reached@, pending@.to_set()),
            forall|j: int| 0 <= j < pending@.len() ==> reached@.contains(#[trigger] pending@[j]),
        decreases universe.len() - reached@.len(), pending@.len(),
    {
        let ghost before = reached@;
        let ghost waiting = pending@;
        proof {
            lemma_closure_bound(edges, nodes@, reached@);
            lemma_closure_visit(edges, nodes@, reached@, waiting, graph.edges.seq());
        }
        let m = pending.pop().unwrap();
        assert(waiting[waiting.len() - 1] == m);
        let mut j: usize = 0;
        while j < total
            invariant
                j <= total,
                edges == graph.edges@,
                universe == nodes@ + targets(edges),
                universe.finite(),
                total == graph.edges.seq().len(),
                partial_closure(edges, nodes@, reached@),
                settled(edges, reached@, pending@.to_set().insert(m)),
                visited(graph.edges.seq(), j as int, m, reached@),
                reached@.contains(m),
                reached@.len() >= before.len(),
                waiting.len() > 0,
                reached@.len() == before.len() ==> pending@ == waiting.drop_last(),
                forall|i: int| 0 <= i < pending@.len() ==> reached@.contains(#[trigger] pending@[i]),
            decreases total - j,
        {
            let e = graph.edges.get(j);
            let mut grown = false;
            if e.from.id == m.id && e.condition.is_none() {
                let ghost mid = reached@;
                let ghost queue = pending@;
                let added = reached.insert(e.to);
                if added {
                    pending.push(e.to);
                    grown = true;
                    proof {
                        lemma_closure_grow(
                            edges,
                            nodes@,
                            mid,
                            queue,
                            m,
                            graph.edges.seq(),
                            j as int,
                        );
                    }
                } else {
                    assert(reached@ =~= mid);
                }
            }
            proof {
                if !grown {
                    lemma_closure_skip(graph.edges.seq(), j as int, m, reached@);
                }
            }
            j += 1;
        }
        proof {
            lemma_closure_leave(edges, reached@, pending@, m, graph.edges.seq());
            lemma_closure_bound(edges, nodes@, reached@);
        }
    }
    proof {
        assert(pending@ =~= Seq::<Node>::empty());
        lemma_closure_end(edges, nodes@, reached@);
    }
    reached
}

/// The nodes that matter to elimination: the acceptors and the nodes that
/// an edge leaves.
pub open spec fn origins(g: Nfa) -> Set<Node> {
    Set::new(
        |n: Node| g.acceptors.contains(n) || exists|e: Edge| g.edges.contains(e) && e.from == n,
    )
}

/// The nodes that the edges of `list` leave.
pub open spec fn sources(list: Seq<Edge>) -> Set<Node> {
    Set::new(|n: Node| exists|i: int| 0 <= i < list.len() && (#[trigger] list[i]).from == n)
}

impl Graph {
    /// The acceptors and the nodes that an edge leaves.
    pub fn origins(&self) -> (found: NodeSet)
        ensures
            found@ == origins(self@),
    {
        let mut found = self.acceptors.clone();
        let total = self.edges.len();
        let mut j: usize = 0;
        while j < total
            invariant
                j <= total,
                total == self.edges.seq().len(),
                found@ == self.acceptors@ + sources(self.edges.seq().subrange(0, j as int)),
            decreases total - j,
        {
            let e = self.edges.get(j);
            let ghost before = found@;
            found.insert(e.from);
            proof {
                let list = self.edges.seq();
                lemma_prefix_grows(list, j as int);
                let old_sources = sources(list.subrange(0, j as int));
                let new_sources = sources(list.subrange(0, j + 1));
                assert forall|n: Node| new_sources.contains(n) == old_sources.insert(
                    e.from,
                ).contains(n) by {
                    if new_sources.contains(n) {
                        let i = choose|i: int|
                            0 <= i < j + 1 && (#[trigger] list.subrange(0, j + 1)[i]).from == n;
                        if i < j {
                            assert(list.subrange(0, j as int)[i].from == n);
                        }
                    }
                    if old_sources.contains(n) {
                        let i = choose|i: int|
                            0 <= i < j && (#[trigger] list.subrange(0, j as int)[i]).from == n;
                        assert(list.subrange(0, j + 1)[i].from == n);
                    }
                    if n == e.from {
                        assert(list.subrange(0, j + 1)[j as int].from == n);
                    }
                }
                assert(new_sources =~= old_sources.insert(e.from));
                assert(found@ =~= self.acceptors@ + new_sources);
            }
            j += 1;
        }
        proof {
            let list = self.edges.seq();
            lemma_prefix_ends(list);
            assert forall|n: Node| origins(self@).contains(n) == (self.acceptors@ + sources(
                list,
            )).contains(n) by {
                if exists|e: Edge| self.edges@.contains(e) && e.from == n {
                    let e = choose|e: Edge| self.edges@.contains(e) && e.from == n;
                    let i = choose|i: int| 0 <= i < list.len() && list[i] == e;
                    assert(list[i].from == n);
                }
                if sources(list).contains(n) {
                    let i = choose|i: int| 0 <= i < list.len() && (#[trigger] list[i]).from == n;
                    assert(self.edges@.contains(list[i]));
                }
            }
            assert(found@ =~= origins(self@));
        }
        found
    }
}

proof fn lemma_lift_step(list: Seq<Edge>, j: int, from: Node, via: Set<Node>)
    requires
        0 <= j < list.len(),
    ensures
        list[j].condition is Some && via.contains(list[j].from) ==> lifted(
            list.subrange(0, j + 1).to_set(),
            from,
            via,
        ) == lifted(list.subrange(0, j).to_set(), from, via).insert(
            Edge { condition: list[j].condition, from, to: list[j].to },
        ),
        !(list[j].condition is Some && via.contains(list[j].from)) ==> lifted(
            list.subrange(0, j + 1).to_set(),
            from,
            via,
        ) == lifted(list.subrange(0, j).to_set(), from, via),
{
    lemma_prefix_grows(list, j);
    let before = list.subrange(0, j).to_set();
    let after = list.subrange(0, j + 1).to_set();
    let hit = list[j].condition is Some && via.contains(list[j].from);
    let new_edge = Edge { condition: list[j].condition, from, to: list[j].to };
    assert forall|e: Edge| lifted(after, from, via).contains(e) == (lifted(
        before,
        from,
        via,
    ).contains(e) || (hit && e == new_edge)) by {
        if lifted(after, from, via).contains(e) {
            let m = choose|m: Node|
                via.contains(m) && after.contains(Edge { condition: e.condition, from: m, to: e.to });
            let x = Edge { condition: e.condition, from: m, to: e.to };
            if x != list[j] {
                assert(before.contains(x));
            }
        }
        if lifted(before, from, via).contains(e) {
            let m = choose|m: Node|
                via.contains(m) && before.contains(
                    Edge { condition: e.condition, from: m, to: e.to },
                );
            assert(after.contains(Edge { condition: e.condition, from: m, to: e.to }));
        }
        if hit && e == new_edge {
            assert(after.contains(Edge { condition: e.condition, from: list[j].from, to: e.to }));
        }
    }
    if hit {
        assert(lifted(after, from, via) =~= lifted(before, from, via).insert(new_edge));
    } else {
        assert(lifted(after, from, via) =~= lifted(before, from, via));
    }
}

impl EdgeSet {
    /// Adds, for every labelled edge of `graph` that leaves a node of
    /// `via`, the edge with the same label and target that leaves `from`.
    pub fn lift(&mut self, graph: &EdgeSet, from: Node, via: &NodeSet)
        ensures
            final(self)@ == old(self)@ + lifted(graph@, from, via@),
    {
        let total = graph.len();
        let mut j: usize = 0;
        proof {
            lemma_prefix_ends(graph.seq());
            assert(lifted(Set::<Edge>::empty(), from, via@) =~= Set::<Edge>::empty());
            assert(self@ =~= old(self)@ + Set::<Edge>::empty());
        }
        while j < total
            invariant
                j <= total,
                total == graph.seq().len(),
                self@ == old(self)@ + lifted(graph.seq().subrange(0, j as int).to_set(), from, via@),
            decreases total - j,
        {
            let e = graph.get(j);
            proof {
                lemma_lift_step(graph.seq(), j as int, from, via@);
            }
            if e.condition.is_some() && via.contains(e.from) {
                self.insert(Edge { condition: e.condition, from, to: e.to });
                assert(self@ =~= old(self)@ + lifted(
                    graph.seq().subrange(0, j + 1).to_set(),
                    from,
                    via@,
                ));
            }
            j += 1;
        }
        proof {
            lemma_prefix_ends(graph.seq());
        }
    }
}

/// Whether `out` is the part of the epsilon-free graph of `g` that belongs
/// to the nodes of `done`.
#[verifier::opaque]
pub open spec fn eliminated_for(g: Nfa, done: Set<Node>, out: Nfa) -> bool {
    &&& out.start == g.start
    &&& out.edges == eliminated(g).edges.filter(|e: Edge| done.contains(e.from))
    &&& out.acceptors == eliminated(g).acceptors.filter(|n: Node| done.contains(n))
}

proof fn lemma_eliminate_begin(g: Nfa)
    ensures
        eliminated_for(
            g,
            Set::<Node>::empty(),
            Nfa { start: g.start, edges: Set::empty(), acceptors: Set::empty() },
        ),
{
    reveal(eliminated_for);
    let done = Set::<Node>::empty();
    assert(eliminated(g).edges.filter(|e: Edge| done.contains(e.from)) =~= Set::<Edge>::empty());
    assert(eliminated(g).acceptors.filter(|n: Node| done.contains(n)) =~= Set::<Node>::empty());
}

proof fn lemma_eliminate_step(g: Nfa, done: Set<Node>, out: Nfa, n: Node, next: Nfa)
    requires
        eliminated_for(g, done, out),
        next.start == out.start,
        next.edges == out.edges + lifted(g.edges, n, closure(g.edges, set![n])),
        next.acceptors == (if closure(g.edges, set![n]).disjoint(g.acceptors) {
            out.acceptors
        } else {
            out.acceptors.insert(n)
        }),
    ensures
        eliminated_for(g, done.insert(n), next),
{
    reveal(eliminated_for);
    let more = done.insert(n);
    assert(next.edges =~= eliminated(g).edges.filter(|e: Edge| more.contains(e.from)));
    assert(next.acceptors =~= eliminated(g).acceptors.filter(|x: Node| more.contains(x)));
}

/// A node that reaches anything but itself silently is a node that an edge
/// leaves.
proof fn lemma_reach_origin(edges: Set<Edge>, n: Node, m: Node)
    requires
        silently_reaches(edges, n, m),
    ensures
        n == m || exists|e: Edge| edges.contains(e) && e.from == n,
{
    let p = choose|p: Seq<Edge>| is_walk(edges, n, p, m) && label(p) == Seq::<char>::empty();
    if p.len() > 0 {
        assert(edges.contains(p[0]) && p[0].from == n);
    }
}

proof fn lemma_eliminate_end(g: Nfa, out: Nfa)
    requires
        eliminated_for(g, origins(g), out),
    ensures
        out == eliminated(g),
{
    reveal(eliminated_for);
    let want = eliminated(g);
    assert forall|e: Edge| want.edges.contains(e) implies origins(g).contains(e.from) by {
        let m = choose|m: Node|
            closure(g.edges, set![e.from]).contains(m) && g.edges.contains(
                Edge { condition: e.condition, from: m, to: e.to },
            );
        let n = choose|n: Node| set![e.from].contains(n) && silently_reaches(g.edges, n, m);
        lemma_reach_origin(g.edges, e.from, m);
    }
    assert forall|x: Node| want.acceptors.contains(x) implies origins(g).contains(x) by {
        let m = choose|m: Node| closure(g.edges, set![x]).contains(m) && g.acceptors.contains(m);
        let n = choose|n: Node| set![x].contains(n) && silently_reaches(g.edges, n, m);
        lemma_reach_origin(g.edges, x, m);
    }
    assert(out.edges =~= want.edges);
    assert(out.acceptors =~= want.acceptors);
}

/// Rewrites `graph` into a graph without epsilon edges that accepts the
/// same strings over the same nodes.
///
/// For every node the epsilon closure is found by a search that keeps the
/// set of nodes it has visited. Each labelled edge that leaves a node of the
/// closure is made to leave the node itself, and the node becomes an
/// acceptor when its closure holds one.
pub fn eliminate(graph: &Graph) -> (out: Graph)
    ensures
        out@ == eliminated(graph@),
        out@.epsilon_free(),
        forall|s: Seq<char>| #[trigger] out@.accepts(s) == graph@.accepts(s),
        graph@.epsilon_free() ==> out@ == graph@,
{
    let origins = graph.origins();
    let mut out = Graph::new(graph.start);
    let count = origins.len();
    let mut i: usize = 0;
    proof {
        lemma_prefix_ends(origins.seq());
        lemma_eliminate_begin(graph@);
    }
    while i < count
        invariant
            i <= count,
            count == origins.seq().len(),
            eliminated_for(graph@, origins.seq().subrange(0, i as int).to_set(), out@),
        decreases count - i,
    {
        let node = origins.get(i);
        let mut single = NodeSet::new();
        single.insert(node);
        let reached = reachable_through_epsilon(graph, &single);
        let ghost before = out@;
        out.edges.lift(&graph.edges, node, &reached);
        if reached.intersects(&graph.acceptors) {
            out.acceptors.insert(node);
        }
        proof {
            lemma_prefix_grows(origins.seq(), i as int);
            assert(single@ =~= set![node]);
            lemma_eliminate_step(
                graph@,
                origins.seq().subrange(0, i as int).to_set(),
                before,
                node,
                out@,
            );
        }
        i += 1;
    }
    proof {
        lemma_prefix_ends(origins.seq());
        lemma_eliminate_end(graph@, out@);
        assert forall|s: Seq<char>| #[trigger] out@.accepts(s) == graph@.accepts(s) by {
            lemma_eliminate_keeps_language(graph@, s);
        }
        if graph@.epsilon_free() {
            lemma_eliminate_idempotent(graph@);
        }
    }
    out
}

/// In a graph without epsilon edges a node reaches only itself silently.
pub proof fn lemma_silent_in_epsilon_free(g: Nfa, n: Node, m: Node)
    requires
        g.epsilon_free(),
    ensures
        silently_reaches(g.edges, n, m) <==> n == m,
{
    lemma_silent_self(g.edges, n);
    if silently_reaches(g.edges, n, m) {
        let p = choose|p: Seq<Edge>| is_walk(g.edges, n, p, m) && label(p) == Seq::<char>::empty();
        lemma_labelled_walk(g.edges, n, p, m);
    }
}

/// Elimination leaves no epsilon edge.
pub proof fn lemma_eliminated_epsilon_free(g: Nfa)
    ensures
        eliminated(g).epsilon_free(),
{
}

/// Elimination changes nothing in a graph that has no epsilon edge: no edge
/// and no acceptor is added or removed.
pub proof fn lemma_eliminate_idempotent(g: Nfa)
    requires
        g.epsilon_free(),
    ensures
        eliminated(g) == g,
{
    let out = eliminated(g);
    assert forall|e: Edge| out.edges.contains(e) == g.edges.contains(e) by {
        if out.edges.contains(e) {
            let m = choose|m: Node|
                closure(g.edges, set![e.from]).contains(m) && g.edges.contains(
                    Edge { condition: e.condition, from: m, to: e.to },
                );
            let n = choose|n: Node| set![e.from].contains(n) && silently_reaches(g.edges, n, m);
            lemma_silent_in_epsilon_free(g, e.from, m);
        }
        if g.edges.contains(e) {
            lemma_silent_self(g.edges, e.from);
            assert(set![e.from].contains(e.from));
            assert(closure(g.edges, set![e.from]).contains(e.from));
            assert(e == Edge { condition: e.condition, from: e.from, to: e.to });
        }
    }
    assert forall|x: Node| out.acceptors.contains(x) == g.acceptors.contains(x) by {
        if out.acceptors.contains(x) {
            let m = choose|m: Node| closure(g.edges, set![x]).contains(m) && g.acceptors.contains(m);
            let n = choose|n: Node| set![x].contains(n) && silently_reaches(g.edges, n, m);
            lemma_silent_in_epsilon_free(g, x, m);
        }
        if g.acceptors.contains(x) {
            lemma_silent_self(g.edges, x);
            assert(set![x].contains(x));
            assert(closure(g.edges, set![x]).contains(x));
        }
    }
    assert(out.edges =~= g.edges);
    assert(out.acceptors =~= g.acceptors);
}

/// An epsilon edge in front extends what is reached silently.
pub proof fn lemma_silent_prepend(edges: Set<Edge>, e: Edge, m: Node)
    requires
        edges.contains(e),
        e.condition is None,
        silently_reaches(edges, e.to, m),
    ensures
        silently_reaches(edges, e.from, m),
{
    let p = choose|p: Seq<Edge>| is_walk(edges, e.to, p, m) && label(p) == Seq::<char>::empty();
    lemma_walk_single(edges, e);
    lemma_walk_join(edges, e.from, seq![e], e.to, p, m);
    assert(label(seq![e] + p) =~= Seq::<char>::empty());
}

/// A walk to an acceptor in the epsilon-free graph has a walk to an
/// acceptor in the graph itself that spells the same string.
proof fn lemma_walk_restored(g: Nfa, n: Node, p: Seq<Edge>, a: Node) -> (found: (
    Seq<Edge>,
    Node,
))
    requires
        is_walk(eliminated(g).edges, n, p, a),
        eliminated(g).acceptors.contains(a),
    ensures
        is_walk(g.edges, n, found.0, found.1),
        g.acceptors.contains(found.1),
        label(found.0) == label(p),
    decreases p.len(),
{
    if p.len() == 0 {
        let m = choose|m: Node| closure(g.edges, set![n]).contains(m) && g.acceptors.contains(m);
        let x = choose|x: Node| set![n].contains(x) && silently_reaches(g.edges, x, m);
        let q = choose|q: Seq<Edge>| is_walk(g.edges, n, q, m) && label(q) == Seq::<char>::empty();
        assert(label(p) =~= Seq::<char>::empty());
        (q, m)
    } else {
        let e = p[0];
        let rest = lemma_walk_restored(g, e.to, p.drop_first(), a);
        let m = choose|m: Node|
            closure(g.edges, set![e.from]).contains(m) && g.edges.contains(
                Edge { condition: e.condition, from: m, to: e.to },
            );
        let x = choose|x: Node| set![e.from].contains(x) && silently_reaches(g.edges, x, m);
        let q = choose|q: Seq<Edge>| is_walk(g.edges, n, q, m) && label(q) == Seq::<char>::empty();
        let step = Edge { condition: e.condition, from: m, to: e.to };
        lemma_walk_single(g.edges, step);
        lemma_walk_join(g.edges, n, q, m, seq![step], e.to);
        lemma_walk_join(g.edges, n, q + seq![step], e.to, rest.0, rest.1);
        assert(label(q + seq![step] + rest.0) =~= label(p));
        (q + seq![step] + rest.0, rest.1)
    }
}

/// A walk to an acceptor in a graph has a walk to an acceptor in its
/// epsilon-free graph that spells the same string.
proof fn lemma_walk_lifted(g: Nfa, n: Node, q: Seq<Edge>, a: Node) -> (found: (Seq<Edge>, Node))
    requires
        is_walk(g.edges, n, q, a),
        g.acceptors.contains(a),
    ensures
        is_walk(eliminated(g).edges, n, found.0, found.1),
        eliminated(g).acceptors.contains(found.1),
        label(found.0) == label(q),
    decreases q.len(),
{
    let out = eliminated(g);
    if q.len() == 0 {
        lemma_silent_self(g.edges, n);
        assert(set![n].contains(n));
        assert(closure(g.edges, set![n]).contains(n));
        (q, n)
    } else {
        let e = q[0];
        let rest = lemma_walk_lifted(g, e.to, q.drop_first(), a);
        if e.condition is Some {
            lemma_silent_self(g.edges, n);
            assert(set![n].contains(n));
            assert(closure(g.edges, set![n]).contains(n));
            assert(e == Edge { condition: e.condition, from: n, to: e.to });
            assert(out.edges.contains(e));
            lemma_walk_single(out.edges, e);
            lemma_walk_join(out.edges, n, seq![e], e.to, rest.0, rest.1);
            assert(label(seq![e] + rest.0) =~= label(q));
            (seq![e] + rest.0, rest.1)
        } else if rest.0.len() == 0 {
            let m = choose|m: Node|
                closure(g.edges, set![e.to]).contains(m) && g.acceptors.contains(m);
            let x = choose|x: Node| set![e.to].contains(x) && silently_reaches(g.edges, x, m);
            lemma_silent_prepend(g.edges, e, m);
            assert(set![n].contains(n));
            assert(closure(g.edges, set![n]).contains(m));
            assert(label(q) =~= label(q.drop_first()));
            (rest.0, n)
        } else {
            let f = rest.0[0];
            let m = choose|m: Node|
                closure(g.edges, set![f.from]).contains(m) && g.edges.contains(
                    Edge { condition: f.condition, from: m, to: f.to },
                );
            let x = choose|x: Node| set![f.from].contains(x) && silently_reaches(g.edges, x, m);
            lemma_silent_prepend(g.edges, e, m);
            assert(set![n].contains(n));
            assert(closure(g.edges, set![n]).contains(m));
            let lifted_edge = Edge { condition: f.condition, from: n, to: f.to };
            assert(out.edges.contains(lifted_edge));
            lemma_walk_single(out.edges, lifted_edge);
            lemma_walk_join(out.edges, n, seq![lifted_edge], f.to, rest.0.drop_first(), rest.1);
            assert(label(seq![lifted_edge] + rest.0.drop_first()) =~= label(rest.0));
            assert(label(q) =~= label(q.drop_first()));
            (seq![lifted_edge] + rest.0.drop_first(), rest.1)
        }
    }
}

/// Elimination keeps the language: the epsilon-free graph accepts exactly
/// the strings that the graph accepts.
pub proof fn lemma_eliminate_keeps_language(g: Nfa, s: Seq<char>)
    ensures
        eliminated(g).accepts(s) == g.accepts(s),
{
    let out = eliminated(g);
    if out.accepts(s) {
        let a = choose|a: Node| out.acceptors.contains(a) && reaches(out.edges, out.start, s, a);
        let p = choose|p: Seq<Edge>| is_walk(out.edges, out.start, p, a) && label(p) == s;
        let found = lemma_walk_restored(g, g.start, p, a);
        assert(reaches(g.edges, g.start, s, found.1));
    }
    if g.accepts(s) {
        let a = choose|a: Node| g.acceptors.contains(a) && reaches(g.edges, g.start, s, a);
        let q = choose|q: Seq<Edge>| is_walk(g.edges, g.start, q, a) && label(q) == s;
        let found = lemma_walk_lifted(g, g.start, q, a);
        assert(reaches(out.edges, out.start, s, found.1));
    }
}

} // verus!
