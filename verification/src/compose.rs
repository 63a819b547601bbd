//! How the language of a combined graph arises from the languages of its
//! parts: what the parts accept, the whole accepts in combination.

use crate::graph::Edge;
use crate::nfa::branch_graph;
use crate::nfa::choice_graph;
use crate::nfa::fan_in;
use crate::nfa::fan_out;
use crate::nfa::linked_graph;
use crate::nfa::star_graph;
use crate::nfa::unit_graph;
use crate::node::Node;
use crate::walk::is_walk;
use crate::walk::label;
use crate::walk::lemma_walk_join;
use crate::walk::lemma_walk_more_edges;
use crate::walk::lemma_walk_single;
use crate::walk::reaches;
use crate::walk::Nfa;
use vstd::prelude::*;

verus! {

/// A walk that a graph accepts by: from the start node to the acceptor
/// `end`.
pub open spec fn accepting_walk(g: Nfa, p: Seq<Edge>, end: Node, s: Seq<char>) -> bool {
    is_walk(g.edges, g.start, p, end) && g.acceptors.contains(end) && label(p) == s
}

/// A graph accepts the string that it has an accepting walk for.
pub proof fn lemma_accepts_by_walk(g: Nfa, p: Seq<Edge>, end: Node, s: Seq<char>)
    requires
        accepting_walk(g, p, end, s),
    ensures
        g.accepts(s),
{
    assert(reaches(g.edges, g.start, s, end));
}

/// An accepting walk for a string that a graph accepts.
pub proof fn lemma_walk_of_accepted(g: Nfa, s: Seq<char>) -> (found: (Seq<Edge>, Node))
    requires
        g.accepts(s),
    ensures
        accepting_walk(g, found.0, found.1, s),
{
    let a = choose|a: Node| g.acceptors.contains(a) && reaches(g.edges, g.start, s, a);
    let p = choose|p: Seq<Edge>| is_walk(g.edges, g.start, p, a) && label(p) == s;
    (p, a)
}

/// The graph of a choice of characters accepts each of them as a string.
pub proof fn lemma_choice_accepts(chars: Seq<char>, from: Node, to: Node, c: char)
    requires
        chars.contains(c),
    ensures
        choice_graph(chars, from, to).accepts(seq![c]),
{
    let g = choice_graph(chars, from, to);
    let e = Edge { condition: Some(c), from, to };
    assert(g.edges.contains(e));
    lemma_walk_single(g.edges, e);
    lemma_accepts_by_walk(g, seq![e], to, seq![c]);
}

/// The graph of one node accepts the empty string.
pub proof fn lemma_unit_accepts(only: Node)
    ensures
        unit_graph(only).accepts(Seq::<char>::empty()),
{
    let g = unit_graph(only);
    let p = Seq::<Edge>::empty();
    assert(is_walk(g.edges, only, p, only));
    lemma_accepts_by_walk(g, p, only, Seq::<char>::empty());
}

/// A repeated graph accepts the empty string.
pub proof fn lemma_star_accepts_nothing(sub: Nfa)
    ensures
        star_graph(sub).accepts(Seq::<char>::empty()),
{
    let g = star_graph(sub);
    let p = Seq::<Edge>::empty();
    assert(is_walk(g.edges, g.start, p, g.start));
    lemma_accepts_by_walk(g, p, g.start, Seq::<char>::empty());
}

/// A repeated graph accepts what the graph accepts followed by what the
/// repeated graph accepts.
pub proof fn lemma_star_accepts_more(sub: Nfa, first: Seq<char>, rest: Seq<char>)
    requires
        sub.accepts(first),
        star_graph(sub).accepts(rest),
    ensures
        star_graph(sub).accepts(first + rest),
{
    let g = star_graph(sub);
    let one = lemma_walk_of_accepted(sub, first);
    let more = lemma_walk_of_accepted(g, rest);
    lemma_walk_more_edges(sub.edges, g.edges, sub.start, one.0, one.1);
    let back = Edge { condition: None, from: one.1, to: sub.start };
    assert(fan_in(sub.acceptors, sub.start).contains(back));
    lemma_walk_single(g.edges, back);
    lemma_walk_join(g.edges, g.start, one.0, one.1, seq![back], g.start);
    lemma_walk_join(g.edges, g.start, one.0 + seq![back], g.start, more.0, more.1);
    assert(label(one.0 + seq![back] + more.0) =~= first + rest);
    lemma_accepts_by_walk(g, one.0 + seq![back] + more.0, more.1, first + rest);
}

/// A branch accepts what either side accepts.
pub proof fn lemma_branch_accepts(left: Nfa, right: Nfa, start: Node, end: Node, s: Seq<char>)
    requires
        left.accepts(s) || right.accepts(s),
    ensures
        branch_graph(left, right, start, end).accepts(s),
{
    let g = branch_graph(left, right, start, end);
    let side = if left.accepts(s) {
        left
    } else {
        right
    };
    let inner = lemma_walk_of_accepted(side, s);
    lemma_walk_more_edges(side.edges, g.edges, side.start, inner.0, inner.1);
    let enter = Edge { condition: None, from: start, to: side.start };
    let leave = Edge { condition: None, from: inner.1, to: end };
    assert(fan_out(start, set![left.start, right.start]).contains(enter));
    assert(fan_in(left.acceptors + right.acceptors, end).contains(leave));
    lemma_walk_single(g.edges, enter);
    lemma_walk_single(g.edges, leave);
    lemma_walk_join(g.edges, start, seq![enter], side.start, inner.0, inner.1);
    lemma_walk_join(g.edges, start, seq![enter] + inner.0, inner.1, seq![leave], end);
    assert(label(seq![enter] + inner.0 + seq![leave]) =~= s);
    lemma_accepts_by_walk(g, seq![enter] + inner.0 + seq![leave], end, s);
}

/// Two linked graphs accept what the first accepts followed by what the
/// second accepts.
pub proof fn lemma_linked_accepts(before: Nfa, next: Nfa, first: Seq<char>, rest: Seq<char>)
    requires
        before.accepts(first),
        next.accepts(rest),
    ensures
        linked_graph(before, next).accepts(first + rest),
{
    let g = linked_graph(before, next);
    let one = lemma_walk_of_accepted(before, first);
    let two = lemma_walk_of_accepted(next, rest);
    lemma_walk_more_edges(before.edges, g.edges, before.start, one.0, one.1);
    lemma_walk_more_edges(next.edges, g.edges, next.start, two.0, two.1);
    let over = Edge { condition: None, from: one.1, to: next.start };
    assert(fan_in(before.acceptors, next.start).contains(over));
    lemma_walk_single(g.edges, over);
    lemma_walk_join(g.edges, g.start, one.0, one.1, seq![over], next.start);
    lemma_walk_join(g.edges, g.start, one.0 + seq![over], next.start, two.0, two.1);
    assert(label(one.0 + seq![over] + two.0) =~= first + rest);
    lemma_accepts_by_walk(g, one.0 + seq![over] + two.0, two.1, first + rest);
}

} // verus!
