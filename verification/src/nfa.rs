//! From an expression tree to a nondeterministic graph.

use crate::expr::lemma_tree_unfolds;
use crate::expr::lemma_trees_each;
use crate::expr::trees;
use crate::expr::RegExpr;
use crate::expr::Tree;
use crate::graph::Edge;
use crate::graph::EdgeSet;
use crate::graph::Graph;
use crate::decompose::confined;
use crate::nfa_language::fits;
use crate::nfa_language::lemma_matched_is_accepted;
use crate::nfa_language::lemma_thompson_confined;
use crate::nfa_language::lemma_thompson_has_acceptor;
use crate::nfa_language::lemma_thompson_language;
use crate::node::Node;
use crate::node::NodeAllocator;
use crate::sets::lemma_prefix_ends;
use crate::sets::lemma_prefix_grows;
use crate::node::NodeSet;
use crate::walk::Nfa;
use vstd::prelude::*;

verus! {

/// The node with identity `id`.
pub open spec fn node_at(id: nat) -> Node {
    Node { id: id as usize }
}

/// The epsilon edges from every node of `sources` to `target`.
pub open spec fn fan_in(sources: Set<Node>, target: Node) -> Set<Edge> {
    Set::new(|e: Edge| e.condition is None && sources.contains(e.from) && e.to == target)
}

/// The epsilon edges from `source` to every node of `targets`.
pub open spec fn fan_out(source: Node, targets: Set<Node>) -> Set<Edge> {
    Set::new(|e: Edge| e.condition is None && e.from == source && targets.contains(e.to))
}

/// One edge from `from` to `to` for each of the listed characters.
pub open spec fn choice_edges(chars: Seq<char>, from: Node, to: Node) -> Set<Edge> {
    Set::new(
        |e: Edge| e.condition is Some && chars.contains(e.condition->0) && e.from == from && e.to == to,
    )
}

/// The number of nodes that the graph of `expr` takes.
pub open spec fn node_count(expr: Tree) -> nat
    decreases expr,
{
    match expr {
        Tree::Character(_) => 2,
        Tree::Range(_) => 2,
        Tree::Repetition(inner) => node_count(*inner),
        Tree::Branch(lhs, rhs) => node_count(*lhs) + node_count(*rhs) + 2,
        Tree::Sequence(items) => if items.len() == 0 {
            1
        } else {
            chain_count(items, items.len())
        },
    }
}

/// The number of nodes that the graphs of the first `upto` items take.
pub open spec fn chain_count(items: Seq<Tree>, upto: nat) -> nat
    decreases items, upto,
{
    if upto == 0 || upto > items.len() {
        0
    } else {
        chain_count(items, (upto - 1) as nat) + node_count(items[upto - 1])
    }
}

/// The graph of one step from `from` to `to` under any of the listed
/// characters; `to` is the one acceptor.
pub open spec fn choice_graph(chars: Seq<char>, from: Node, to: Node) -> Nfa {
    Nfa { start: from, edges: choice_edges(chars, from, to), acceptors: set![to] }
}

/// The graph that repeats `sub`: its start node is made an acceptor, and
/// epsilon edges lead from the start node to each acceptor of `sub` and
/// back.
pub open spec fn star_graph(sub: Nfa) -> Nfa {
    Nfa {
        start: sub.start,
        edges: sub.edges + fan_out(sub.start, sub.acceptors) + fan_in(sub.acceptors, sub.start),
        acceptors: sub.acceptors.insert(sub.start),
    }
}

/// The graph that offers `left` and `right`: epsilon edges lead from the
/// new start node to both start nodes, and from the acceptors of both to
/// the new end node, which is the one acceptor.
pub open spec fn branch_graph(left: Nfa, right: Nfa, start: Node, end: Node) -> Nfa {
    Nfa {
        start,
        edges: left.edges + right.edges + fan_out(start, set![left.start, right.start]) + fan_in(
            left.acceptors + right.acceptors,
            end,
        ),
        acceptors: set![end],
    }
}

/// The graph that runs `before` and then `next`: an epsilon edge leads from
/// every acceptor of `before` to the start node of `next`.
pub open spec fn linked_graph(before: Nfa, next: Nfa) -> Nfa {
    Nfa {
        start: before.start,
        edges: before.edges + next.edges + fan_in(before.acceptors, next.start),
        acceptors: next.acceptors,
    }
}

/// The graph of one node that is start node and acceptor, without edges.
pub open spec fn unit_graph(only: Node) -> Nfa {
    Nfa { start: only, edges: Set::empty(), acceptors: set![only] }
}

/// The graph of `expr` when its nodes are issued from identity `base` on.
///
/// - A character: two fresh nodes and one edge between them; the second
///   node is the one acceptor.
/// - A range: the same, with one edge for each listed character.
/// - A repetition: the graph of the operand, repeated.
/// - A branch: the graphs of both operands, the left one first, then a
///   fresh start node and a fresh end node that offer the two.
/// - A sequence: the graphs of the items, each linked to the next; without
///   items, one fresh node that is start node and acceptor.
pub open spec fn thompson(expr: Tree, base: nat) -> Nfa
    decreases expr,
{
    match expr {
        Tree::Character(c) => choice_graph(seq![c], node_at(base), node_at(base + 1)),
        Tree::Range(chars) => choice_graph(chars, node_at(base), node_at(base + 1)),
        Tree::Repetition(inner) => star_graph(thompson(*inner, base)),
        Tree::Branch(lhs, rhs) => branch_graph(
            thompson(*lhs, base),
            thompson(*rhs, base + node_count(*lhs)),
            node_at(base + node_count(*lhs) + node_count(*rhs)),
            node_at(base + node_count(*lhs) + node_count(*rhs) + 1),
        ),
        Tree::Sequence(items) => if items.len() == 0 {
            unit_graph(node_at(base))
        } else {
            chain(items, items.len(), base)
        },
    }
}

/// The graph of the first `upto` items (at least one), linked from left to
/// right: the start node is that of the first item and the acceptors are
/// those of the last.
pub open spec fn chain(items: Seq<Tree>, upto: nat, base: nat) -> Nfa
    decreases items, upto,
{
    if upto == 0 || upto > items.len() {
        unit_graph(node_at(base))
    } else if upto == 1 {
        thompson(items[0], base)
    } else {
        linked_graph(
            chain(items, (upto - 1) as nat, base),
            thompson(items[upto - 1], base + chain_count(items, (upto - 1) as nat)),
        )
    }
}

impl EdgeSet {
    /// Adds every edge of `other`.
    pub fn extend(&mut self, other: &EdgeSet)
        ensures
            final(self)@ == old(self)@ + other@,
    {
        let n = other.len();
        let mut i: usize = 0;
        proof {
            lemma_prefix_ends(other.seq());
            assert(self@ =~= old(self)@ + Set::<Edge>::empty());
        }
        while i < n
            invariant
                i <= n,
                n == other.seq().len(),
                self@ == old(self)@ + other.seq().subrange(0, i as int).to_set(),
            decreases n - i,
        {
            let e = other.get(i);
            self.insert(e);
            proof {
                lemma_prefix_grows(other.seq(), i as int);
                assert(self@ =~= old(self)@ + other.seq().subrange(0, i + 1).to_set());
            }
            i += 1;
        }
        proof {
            lemma_prefix_ends(other.seq());
        }
    }

    /// Adds an epsilon edge from every node of `sources` to `target`.
    pub fn link_to(&mut self, sources: &NodeSet, target: Node)
        ensures
            final(self)@ == old(self)@ + fan_in(sources@, target),
    {
        let n = sources.len();
        let mut i: usize = 0;
        proof {
            lemma_prefix_ends(sources.seq());
            assert(self@ =~= old(self)@ + fan_in(Set::<Node>::empty(), target));
        }
        while i < n
            invariant
                i <= n,
                n == sources.seq().len(),
                self@ == old(self)@ + fan_in(sources.seq().subrange(0, i as int).to_set(), target),
            decreases n - i,
        {
            let a = sources.get(i);
            self.insert(Edge { condition: None, from: a, to: target });
            proof {
                lemma_prefix_grows(sources.seq(), i as int);
                assert(self@ =~= old(self)@ + fan_in(
                    sources.seq().subrange(0, i + 1).to_set(),
                    target,
                ));
            }
            i += 1;
        }
        proof {
            lemma_prefix_ends(sources.seq());
        }
    }

    /// Adds an epsilon edge from `source` to every node of `targets`.
    pub fn link_from(&mut self, source: Node, targets: &NodeSet)
        ensures
            final(self)@ == old(self)@ + fan_out(source, targets@),
    {
        let n = targets.len();
        let mut i: usize = 0;
        proof {
            lemma_prefix_ends(targets.seq());
            assert(self@ =~= old(self)@ + fan_out(source, Set::<Node>::empty()));
        }
        while i < n
            invariant
                i <= n,
                n == targets.seq().len(),
                self@ == old(self)@ + fan_out(source, targets.seq().subrange(0, i as int).to_set()),
            decreases n - i,
        {
            let a = targets.get(i);
            self.insert(Edge { condition: None, from: source, to: a });
            proof {
                lemma_prefix_grows(targets.seq(), i as int);
                assert(self@ =~= old(self)@ + fan_out(
                    source,
                    targets.seq().subrange(0, i + 1).to_set(),
                ));
            }
            i += 1;
        }
        proof {
            lemma_prefix_ends(targets.seq());
        }
    }

    /// Adds one edge from `from` to `to` for each of the listed characters.
    pub fn link_by(&mut self, chars: &Vec<char>, from: Node, to: Node)
        ensures
            final(self)@ == old(self)@ + choice_edges(chars@, from, to),
    {
        let n = chars.len();
        let mut i: usize = 0;
        proof {
            assert(self@ =~= old(self)@ + choice_edges(chars@.subrange(0, 0), from, to));
        }
        while i < n
            invariant
                i <= n,
                n == chars@.len(),
                self@ == old(self)@ + choice_edges(chars@.subrange(0, i as int), from, to),
            decreases n - i,
        {
            let c = chars[i];
            self.insert(Edge { condition: Some(c), from, to });
            proof {
                let before = chars@.subrange(0, i as int);
                let after = chars@.subrange(0, i + 1);
                lemma_prefix_grows(chars@, i as int);
                assert forall|d: char| after.contains(d) == (before.contains(d) || d == c) by {
                    assert(after.to_set().contains(d) == after.contains(d));
                    assert(before.to_set().contains(d) == before.contains(d));
                }
                assert(self@ =~= old(self)@ + choice_edges(after, from, to));
            }
            i += 1;
        }
        proof {
            lemma_prefix_ends(chars@);
        }
    }
}

/// Builds the graph of `expr`, taking its nodes from `alloc`. Nodes issued
/// earlier are left as they were, and every node of the graph is one of
/// those issued for it. The graph has an acceptor. It accepts every string
/// of the language of `expr`, and nothing else if the loops of `expr` are
/// isolated.
pub fn build_nfa(expr: &RegExpr, alloc: &mut NodeAllocator) -> (graph: Graph)
    ensures
        graph@ == thompson(expr.tree(), old(alloc).count()),
        final(alloc).count() == old(alloc).count() + node_count(expr.tree()),
        old(alloc).wf() ==> final(alloc).wf(),
        old(alloc).nodes@.is_prefix_of(final(alloc).nodes@),
        confined(graph@, old(alloc).count() as int, final(alloc).count() as int),
        exists|a: Node| graph@.acceptors.contains(a),
        forall|s: Seq<char>| expr.tree().matches(s) ==> #[trigger] graph@.accepts(s),
        expr.tree().loops_isolated() ==> forall|s: Seq<char>| #[trigger]
            graph@.accepts(s) == expr.tree().matches(s),
    decreases expr,
{
    let ghost base = alloc.count();
    proof {
        lemma_tree_unfolds(*expr);
    }
    let graph = match expr {
        RegExpr::Character(c) => {
            let start = Node::new(alloc);
            let end = Node::new(alloc);
            let mut graph = Graph::new(start);
            graph.add_edge(Some(*c), start, end);
            graph.acceptors.insert(end);
            proof {
                let want = thompson(expr.tree(), base);
                assert(seq![*c][0] == *c);
                assert(graph@.edges =~= want.edges);
                assert(graph@.acceptors =~= want.acceptors);
            }
            graph
        },
        RegExpr::Range(chars) => {
            let start = Node::new(alloc);
            let end = Node::new(alloc);
            let mut graph = Graph::new(start);
            graph.edges.link_by(chars, start, end);
            graph.acceptors.insert(end);
            proof {
                let want = thompson(expr.tree(), base);
                assert(graph@.edges =~= want.edges);
                assert(graph@.acceptors =~= want.acceptors);
            }
            graph
        },
        RegExpr::Repetition(inner) => {
            let mut graph = build_nfa(inner, alloc);
            let start = graph.start;
            graph.edges.link_from(start, &graph.acceptors);
            graph.edges.link_to(&graph.acceptors, start);
            graph.acceptors.insert(start);
            graph
        },
        RegExpr::Branch(lhs, rhs) => {
            let left = build_nfa(lhs, alloc);
            let right = build_nfa(rhs, alloc);
            let start = Node::new(alloc);
            let end = Node::new(alloc);
            let mut graph = Graph::new(start);
            graph.edges.extend(&left.edges);
            graph.edges.extend(&right.edges);
            graph.add_edge(None, start, left.start);
            graph.add_edge(None, start, right.start);
            graph.edges.link_to(&left.acceptors, end);
            graph.edges.link_to(&right.acceptors, end);
            graph.acceptors.insert(end);
            proof {
                let want = thompson(expr.tree(), base);
                assert(graph@.edges =~= want.edges);
                assert(graph@.acceptors =~= want.acceptors);
            }
            graph
        },
        RegExpr::Sequence(items) => {
            if items.len() == 0 {
                let only = Node::new(alloc);
                let mut graph = Graph::new(only);
                graph.acceptors.insert(only);
                proof {
                    let want = thompson(expr.tree(), base);
                    assert(graph@.acceptors =~= want.acceptors);
                }
                graph
            } else {
                let ghost all = trees(items@, items@.len());
                proof {
                    lemma_trees_each(items@, items@.len());
                }
                let mut graph = build_nfa(&items[0], alloc);
                let mut i: usize = 1;
                assert(chain_count(all, 1) == chain_count(all, 0) + node_count(all[0]));
                while i < items.len()
                    invariant
                        1 <= i <= items@.len(),
                        decreases_to!(expr => items),
                        all.len() == items@.len(),
                        forall|k: int| 0 <= k < items@.len() ==> all[k] == (#[trigger] items@[k]).tree(),
                        graph@ == chain(all, i as nat, base),
                        alloc.count() == base + chain_count(all, i as nat),
                        old(alloc).wf() ==> alloc.wf(),
                        old(alloc).nodes@.is_prefix_of(alloc.nodes@),
                        base == old(alloc).count(),
                    decreases items@.len() - i,
                {
                    assert(decreases_to!(items => items[i as int]));
                    let next = build_nfa(&items[i], alloc);
                    graph.edges.extend(&next.edges);
                    graph.edges.link_to(&graph.acceptors, next.start);
                    graph.acceptors = next.acceptors;
                    i += 1;
                }
                graph
            }
        },
    };
    proof {
        let tree = expr.tree();
        assert(alloc.nodes.len() == alloc.count());
        assert(fits(tree, base));
        lemma_thompson_confined(tree, base);
        let a = lemma_thompson_has_acceptor(tree, base);
        assert forall|s: Seq<char>| tree.matches(s) implies #[trigger] graph@.accepts(s) by {
            lemma_matched_is_accepted(tree, base, s);
        }
        if tree.loops_isolated() {
            assert forall|s: Seq<char>| #[trigger] graph@.accepts(s) == tree.matches(s) by {
                lemma_thompson_language(tree, base, s);
            }
        }
    }
    graph
}

} // verus!
