//! What a graph accepts: walks along its edges and the strings they spell.

use crate::graph::Edge;
use crate::graph::Graph;
use crate::node::Node;
use vstd::prelude::*;

verus! {

/// A graph as a mathematical value: the start node, the set of edges and the
/// set of acceptors.
pub struct Nfa {
    pub start: Node,
    pub edges: Set<Edge>,
    pub acceptors: Set<Node>,
}

impl View for Graph {
    type V = Nfa;

    open spec fn view(&self) -> Nfa {
        Nfa { start: self.start, edges: self.edges@, acceptors: self.acceptors@ }
    }
}

/// Whether `path` is a walk from `from` to `to`: each step is one of
/// `edges`, and each step begins where the one before it ended.
pub open spec fn is_walk(edges: Set<Edge>, from: Node, path: Seq<Edge>, to: Node) -> bool
    decreases path.len(),
{
    if path.len() == 0 {
        from == to
    } else {
        path[0].from == from && edges.contains(path[0]) && is_walk(
            edges,
            path[0].to,
            path.drop_first(),
            to,
        )
    }
}

/// The characters that one edge consumes: one, or none for an epsilon edge.
pub open spec fn letter(edge: Edge) -> Seq<char> {
    match edge.condition {
        Some(c) => seq![c],
        None => Seq::empty(),
    }
}

/// The string that a walk spells: the characters of its edges in order,
/// epsilon edges adding nothing.
pub open spec fn label(path: Seq<Edge>) -> Seq<char>
    decreases path.len(),
{
    if path.len() == 0 {
        Seq::empty()
    } else {
        letter(path[0]) + label(path.drop_first())
    }
}

/// Whether some walk from `from` to `to` spells `s`.
pub open spec fn reaches(edges: Set<Edge>, from: Node, s: Seq<char>, to: Node) -> bool {
    exists|path: Seq<Edge>| is_walk(edges, from, path, to) && label(path) == s
}

impl Nfa {
    /// Whether some walk from the start node to an acceptor spells `s`.
    pub open spec fn accepts(self, s: Seq<char>) -> bool {
        exists|a: Node| self.acceptors.contains(a) && reaches(self.edges, self.start, s, a)
    }

    /// Whether no edge is an epsilon edge.
    pub open spec fn epsilon_free(self) -> bool {
        forall|e: Edge| self.edges.contains(e) ==> e.condition is Some
    }
}

/// Two walks, the second beginning where the first ends, join into one walk
/// that spells the two strings one after the other.
pub proof fn lemma_walk_join(
    edges: Set<Edge>,
    a: Node,
    p: Seq<Edge>,
    b: Node,
    q: Seq<Edge>,
    c: Node,
)
    requires
        is_walk(edges, a, p, b),
        is_walk(edges, b, q, c),
    ensures
        is_walk(edges, a, p + q, c),
        label(p + q) == label(p) + label(q),
    decreases p.len(),
{
    if p.len() == 0 {
        assert(p + q =~= q);
        assert(label(p) + label(q) =~= label(q));
    } else {
        lemma_walk_join(edges, p[0].to, p.drop_first(), b, q, c);
        assert((p + q).drop_first() =~= p.drop_first() + q);
        assert((p + q)[0] == p[0]);
        assert(label(p + q) =~= label(p) + label(q));
    }
}

/// A walk can be cut after any number of steps: both parts are walks, they
/// meet in one node, and their strings make up the string of the whole.
pub proof fn lemma_walk_cut(edges: Set<Edge>, a: Node, p: Seq<Edge>, c: Node, k: int) -> (mid:
    Node)
    requires
        is_walk(edges, a, p, c),
        0 <= k <= p.len(),
    ensures
        is_walk(edges, a, p.subrange(0, k), mid),
        is_walk(edges, mid, p.subrange(k, p.len() as int), c),
        label(p) == label(p.subrange(0, k)) + label(p.subrange(k, p.len() as int)),
        mid == (if k == 0 {
            a
        } else {
            p[k - 1].to
        }),
    decreases k,
{
    if k == 0 {
        assert(p.subrange(0, 0) =~= Seq::<Edge>::empty());
        assert(p.subrange(0, p.len() as int) =~= p);
        assert(label(p) =~= label(p.subrange(0, k)) + label(p));
        a
    } else {
        let rest = p.drop_first();
        let mid = lemma_walk_cut(edges, p[0].to, rest, c, k - 1);
        assert(rest.subrange(0, k - 1) =~= p.subrange(0, k).drop_first());
        assert(rest.subrange(k - 1, rest.len() as int) =~= p.subrange(k, p.len() as int));
        assert(p.subrange(0, k)[0] == p[0]);
        assert(label(p) =~= label(p.subrange(0, k)) + label(p.subrange(k, p.len() as int)));
        mid
    }
}

/// A walk stays a walk when edges are added.
pub proof fn lemma_walk_more_edges(
    edges: Set<Edge>,
    more: Set<Edge>,
    a: Node,
    p: Seq<Edge>,
    b: Node,
)
    requires
        is_walk(edges, a, p, b),
        edges.subset_of(more),
    ensures
        is_walk(more, a, p, b),
    decreases p.len(),
{
    if p.len() > 0 {
        lemma_walk_more_edges(edges, more, p[0].to, p.drop_first(), b);
    }
}

/// Every step of a walk is one of the edges.
pub proof fn lemma_walk_steps(edges: Set<Edge>, a: Node, p: Seq<Edge>, b: Node, i: int)
    requires
        is_walk(edges, a, p, b),
        0 <= i < p.len(),
    ensures
        edges.contains(p[i]),
        i + 1 < p.len() ==> p[i].to == p[i + 1].from,
        i + 1 == p.len() ==> p[i].to == b,
        i == 0 ==> p[i].from == a,
    decreases i,
{
    let rest = p.drop_first();
    assert(is_walk(edges, p[0].to, rest, b));
    if i > 0 {
        lemma_walk_steps(edges, p[0].to, rest, b, i - 1);
        assert(rest[i - 1] == p[i]);
        if i + 1 < p.len() {
            assert(rest[i] == p[i + 1]);
        }
    } else if p.len() > 1 {
        assert(rest[0] == p[1]);
        assert(rest[0].from == p[0].to);
    } else {
        assert(rest.len() == 0);
    }
}

/// A walk of one edge.
pub proof fn lemma_walk_single(edges: Set<Edge>, e: Edge)
    requires
        edges.contains(e),
    ensures
        is_walk(edges, e.from, seq![e], e.to),
        label(seq![e]) == letter(e),
{
    let p = seq![e];
    assert(p.drop_first() =~= Seq::<Edge>::empty());
    assert(is_walk(edges, e.to, p.drop_first(), e.to));
    assert(label(p.drop_first()) =~= Seq::<char>::empty());
    assert(label(p) =~= letter(e));
}

/// A walk that spells the empty string uses epsilon edges only.
pub proof fn lemma_silent_walk(p: Seq<Edge>, i: int)
    requires
        label(p).len() == 0,
        0 <= i < p.len(),
    ensures
        p[i].condition is None,
        label(p.drop_first()).len() == 0,
    decreases i,
{
    assert(label(p) == letter(p[0]) + label(p.drop_first()));
    if i > 0 {
        lemma_silent_walk(p.drop_first(), i - 1);
    }
}

/// In a walk over labelled edges only, every step spells one character.
pub proof fn lemma_labelled_walk(edges: Set<Edge>, a: Node, p: Seq<Edge>, b: Node)
    requires
        is_walk(edges, a, p, b),
        forall|e: Edge| edges.contains(e) ==> e.condition is Some,
    ensures
        label(p).len() == p.len(),
    decreases p.len(),
{
    if p.len() > 0 {
        lemma_labelled_walk(edges, p[0].to, p.drop_first(), b);
    }
}

} // verus!
