//! Nondeterministic graphs: labelled and epsilon edges between nodes.

use crate::node::Node;
use crate::node::NodeSet;
use vstd::prelude::*;

verus! {

/// A transition from one node to another. With a character as condition it
/// consumes that character; without one it is an epsilon edge and consumes
/// nothing.
#[derive(PartialEq, Eq, Structural, PartialOrd, Ord, Debug, Clone, Copy, Hash)]
pub struct Edge {
    pub condition: Option<char>,
    pub from: Node,
    pub to: Node,
}

/// The order of conditions: epsilon first, then the characters by code
/// point.
pub open spec fn condition_before(a: Option<char>, b: Option<char>) -> bool {
    match (a, b) {
        (None, Some(_)) => true,
        (Some(x), Some(y)) => x < y,
        _ => false,
    }
}

/// The total order of edges: by condition, then by source, then by target.
pub open spec fn edge_before(a: Edge, b: Edge) -> bool {
    condition_before(a.condition, b.condition) || (a.condition == b.condition && (a.from.id
        < b.from.id || (a.from.id == b.from.id && a.to.id < b.to.id)))
}

/// Whether the edges in `s` rise strictly from each entry to the next.
pub open spec fn edges_ascending(s: Seq<Edge>) -> bool {
    forall|i: int, j: int| 0 <= i < j < s.len() ==> edge_before(s[i], s[j])
}

impl Edge {
    /// Whether this edge comes strictly before `other` in the order of edges.
    pub fn before(&self, other: &Edge) -> (r: bool)
        ensures
            r == edge_before(*self, *other),
    {
        let tie = self.from.id < other.from.id || (self.from.id == other.from.id && self.to.id
            < other.to.id);
        match (self.condition, other.condition) {
            (None, None) => tie,
            (None, Some(_)) => true,
            (Some(_), None) => false,
            (Some(x), Some(y)) => x < y || (x == y && tie),
        }
    }
}

/// A finite set of edges, kept in rising order, each edge once.
#[derive(Debug, PartialEq, Eq)]
pub struct EdgeSet {
    items: Vec<Edge>,
}

impl View for EdgeSet {
    type V = Set<Edge>;

    open spec fn view(&self) -> Set<Edge> {
        self.seq().to_set()
    }
}

impl EdgeSet {
    #[verifier::type_invariant]
    spec fn sorted(&self) -> bool {
        edges_ascending(self.items@)
    }

    /// The members in the order in which they are stored and handed out.
    pub closed spec fn seq(&self) -> Seq<Edge> {
        self.items@
    }

    /// The empty set.
    pub fn new() -> (set: EdgeSet)
        ensures
            set@ == Set::<Edge>::empty(),
            set.seq() == Seq::<Edge>::empty(),
    {
        let set = EdgeSet { items: Vec::new() };
        assert(set.seq().to_set() =~= Set::<Edge>::empty());
        set
    }

    /// The number of members. The stored order is strictly rising, so no
    /// member is stored twice.
    pub fn len(&self) -> (n: usize)
        ensures
            n == self.seq().len(),
            n == self@.len(),
            edges_ascending(self.seq()),
            self.seq().no_duplicates(),
    {
        proof {
            use_type_invariant(self);
            assert forall|i: int, j: int|
                0 <= i < self.items@.len() && 0 <= j < self.items@.len() && i != j implies
                self.items@[i] != self.items@[j] by {
                if i < j {
                    assert(edge_before(self.items@[i], self.items@[j]));
                } else {
                    assert(edge_before(self.items@[j], self.items@[i]));
                }
            }
            self.items@.unique_seq_to_set();
        }
        self.items.len()
    }

    /// The member at position `i` of the stored order.
    pub fn get(&self, i: usize) -> (edge: Edge)
        requires
            i < self.seq().len(),
        ensures
            edge == self.seq()[i as int],
            self@.contains(edge),
    {
        self.items[i]
    }

    /// The members in rising order.
    pub fn to_vec(&self) -> (list: Vec<Edge>)
        ensures
            list@ == self.seq(),
    {
        let list = self.items.clone();
        assert(list@ =~= self.items@);
        list
    }

    /// Whether `edge` is a member.
    pub fn contains(&self, edge: Edge) -> (found: bool)
        ensures
            found == self@.contains(edge),
    {
        let mut i: usize = 0;
        while i < self.items.len()
            invariant
                i <= self.items@.len(),
                forall|j: int| 0 <= j < i ==> self.items@[j] != edge,
            decreases self.items@.len() - i,
        {
            if self.items[i] == edge {
                return true;
            }
            i += 1;
        }
        false
    }

    /// Adds `edge`; tells whether it was absent before.
    pub fn insert(&mut self, edge: Edge) -> (added: bool)
        ensures
            final(self)@ == old(self)@.insert(edge),
            added == !old(self)@.contains(edge),
    {
        proof {
            use_type_invariant(&*self);
        }
        let mut i: usize = 0;
        while i < self.items.len() && self.items[i].before(&edge)
            invariant
                i <= self.items@.len(),
                forall|j: int| 0 <= j < i ==> edge_before(self.items@[j], edge),
            decreases self.items@.len() - i,
        {
            i += 1;
        }
        if i < self.items.len() && self.items[i] == edge {
            assert(self.items@[i as int] == edge);
            assert(self.seq().to_set().insert(edge) =~= self.seq().to_set());
            return false;
        }
        let ghost before = self.items@;
        assert(i < before.len() ==> edge_before(edge, before[i as int]));
        assert(!before.contains(edge)) by {
            if before.contains(edge) {
                let k = choose|k: int| 0 <= k < before.len() && before[k] == edge;
                if k > i {
                    assert(edge_before(before[i as int], before[k]));
                }
            }
        }
        let mut items: Vec<Edge> = Vec::new();
        core::mem::swap(&mut items, &mut self.items);
        items.insert(i, edge);
        proof {
            let after = items@;
            assert(after == before.insert(i as int, edge));
            assert forall|a: int, b: int| 0 <= a < b < after.len() implies edge_before(
                after[a],
                after[b],
            ) by {
                if a < i && b > i {
                    assert(after[a] == before[a]);
                    assert(after[b] == before[b - 1]);
                    if b - 1 > i {
                        assert(edge_before(before[i as int], before[b - 1]));
                    }
                } else if a < i && b < i {
                } else if a < i && b == i {
                } else if a == i {
                    assert(after[b] == before[b - 1]);
                    if b - 1 > i {
                        assert(edge_before(before[i as int], before[b - 1]));
                    }
                } else {
                    assert(after[a] == before[a - 1]);
                    assert(after[b] == before[b - 1]);
                }
            }
            assert forall|e: Edge| after.to_set().contains(e) == before.to_set().insert(
                edge,
            ).contains(e) by {
                if after.contains(e) {
                    let k = choose|k: int| 0 <= k < after.len() && after[k] == e;
                    if k < i {
                        assert(before[k] == e);
                    } else if k > i {
                        assert(before[k - 1] == e);
                    }
                }
                if before.contains(e) {
                    let k = choose|k: int| 0 <= k < before.len() && before[k] == e;
                    if k < i {
                        assert(after[k] == e);
                    } else {
                        assert(after[k + 1] == e);
                    }
                }
                if e == edge {
                    assert(after[i as int] == e);
                }
            }
            assert(after.to_set() =~= before.to_set().insert(edge));
        }
        self.items = items;
        true
    }
}

impl Clone for EdgeSet {
    fn clone(&self) -> (copy: EdgeSet)
        ensures
            copy@ == self@,
            copy.seq() == self.seq(),
    {
        proof {
            use_type_invariant(self);
        }
        let items = self.items.clone();
        assert(items@ =~= self.items@);
        EdgeSet { items }
    }
}

/// A nondeterministic automaton: a start node, edges, and the nodes in which
/// a run may end with success.
#[derive(Debug, PartialEq, Eq)]
pub struct Graph {
    pub start: Node,
    pub edges: EdgeSet,
    pub acceptors: NodeSet,
}

impl Graph {
    /// A graph with the given start node, no edge and no acceptor.
    pub fn new(start: Node) -> (graph: Graph)
        ensures
            graph.start == start,
            graph.edges@ == Set::<Edge>::empty(),
            graph.acceptors@ == Set::<Node>::empty(),
    {
        Graph { start, edges: EdgeSet::new(), acceptors: NodeSet::new() }
    }

    /// Adds the edge from `from` to `to` under `condition`, unless the graph
    /// has it already.
    pub fn add_edge(&mut self, condition: Option<char>, from: Node, to: Node)
        ensures
            final(self).edges@ == old(self).edges@.insert(Edge { condition, from, to }),
            final(self).start == old(self).start,
            final(self).acceptors == old(self).acceptors,
    {
        self.edges.insert(Edge { condition, from, to });
    }
}

} // verus!
