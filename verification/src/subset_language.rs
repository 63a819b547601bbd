//! What subset construction guarantees: one transition per state and
//! character, one state per set of nodes, and the language of the graph.

use crate::dfa::Dfa;
use crate::dfa::State;
use crate::dfa::Transition;
use crate::graph::Edge;
use crate::node::Node;
use crate::subset::discovered;
use crate::subset::follow;
use crate::subset::inhabited;
use crate::subset::is_transition;
use crate::sets::lemma_subsets_count;
use crate::sets::lemma_subsets_finite;
use crate::sets::subsets_of;
use crate::subset::lemma_follow_push;
use crate::subset::lemma_follow_within;
use crate::subset::universe;
use crate::subset::lemma_transition_exists;
use crate::subset::state_of;
use crate::subset::step;
use crate::subset::subset_construction;
use crate::walk::is_walk;
use crate::walk::label;
use crate::walk::lemma_walk_cut;
use crate::walk::lemma_walk_join;
use crate::walk::lemma_walk_single;
use crate::walk::lemma_walk_steps;
use crate::walk::reaches;
use crate::walk::Nfa;
use vstd::arithmetic::power2::pow2;
use vstd::prelude::*;

verus! {

/// The states of an automaton: its start state and the two ends of every
/// transition.
pub open spec fn states(dfa: Dfa) -> Set<State> {
    Set::new(
        |q: State|
            q == dfa.start || exists|t: Transition|
                dfa.edges.contains(t) && (t.from == q || t.to == q),
    )
}

/// Determinism: in the automaton of a graph, at most one transition leaves
/// each state under each character.
pub proof fn lemma_subset_construction_deterministic(g: Nfa)
    ensures
        subset_construction(g).deterministic(),
{
}

/// Every state of the automaton of a graph is the state of its set of
/// nodes.
pub proof fn lemma_state_is_state_of(g: Nfa, q: State)
    requires
        states(subset_construction(g)).contains(q),
    ensures
        q == state_of(g, q.nodes),
{
}

/// Canonicalization: the automaton of a graph has no two states for one
/// set of nodes.
pub proof fn lemma_subset_construction_canonical(g: Nfa, a: State, b: State)
    requires
        states(subset_construction(g)).contains(a),
        states(subset_construction(g)).contains(b),
        a.nodes == b.nodes,
    ensures
        a == b,
{
    lemma_state_is_state_of(g, a);
    lemma_state_is_state_of(g, b);
}

/// Every state of the automaton of a graph stands for a set of nodes that
/// a walk from the start node can be in; a graph of finitely many edges has
/// finitely many such sets, so its automaton has finitely many states.
pub proof fn lemma_states_within_universe(g: Nfa, q: State)
    requires
        states(subset_construction(g)).contains(q),
    ensures
        q.nodes.subset_of(universe(g)),
        g.edges.finite() ==> subsets_of(universe(g)).finite(),
{
    let dfa = subset_construction(g);
    if g.edges.finite() {
        g.edges.lemma_map_finite(|e: Edge| e.to);
        lemma_subsets_finite(universe(g));
    }
    if q != dfa.start {
        let t = choose|t: Transition| dfa.edges.contains(t) && (t.from == q || t.to == q);
        let s = choose|s: Seq<char>| follow(g.edges, set![g.start], s) == t.from.nodes;
        lemma_follow_within(g, s);
        lemma_follow_push(g.edges, set![g.start], s, t.condition);
        lemma_follow_within(g, s.push(t.condition));
    } else {
        lemma_follow_within(g, Seq::<char>::empty());
    }
}

/// The automaton of a graph has at most two to the power of `n` states,
/// where `n` is the number of nodes that a walk from the start node can be
/// in.
pub proof fn lemma_state_count(g: Nfa)
    requires
        g.edges.finite(),
    ensures
        universe(g).finite(),
        states(subset_construction(g)).finite(),
        states(subset_construction(g)).len() <= pow2(universe(g).len()),
{
    let dfa = subset_construction(g);
    g.edges.lemma_map_finite(|e: Edge| e.to);
    lemma_subsets_count(universe(g));
    let all = subsets_of(universe(g));
    let name = |nodes: Set<Node>| state_of(g, nodes);
    all.lemma_map_finite(name);
    vstd::set_lib::lemma_map_size_bound(all, all.map(name), name);
    assert forall|q: State| states(dfa).contains(q) implies all.map(name).contains(q) by {
        lemma_states_within_universe(g, q);
        lemma_state_is_state_of(g, q);
        assert(all.contains(q.nodes));
        assert(q == name(q.nodes));
    }
    vstd::set_lib::lemma_len_subset(states(dfa), all.map(name));
}

/// Following a string is following its first character and then the rest.
pub proof fn lemma_follow_first(edges: Set<Edge>, from: Set<Node>, s: Seq<char>)
    requires
        s.len() > 0,
    ensures
        follow(edges, from, s) == follow(edges, step(edges, from, s[0]), s.drop_first()),
    decreases s.len(),
{
    let next = step(edges, from, s[0]);
    if s.len() == 1 {
        assert(s.drop_last().len() == 0);
        assert(s.drop_first().len() == 0);
        assert(follow(edges, from, s.drop_last()) == from);
        assert(follow(edges, next, s.drop_first()) == next);
        assert(s.last() == s[0]);
        assert(follow(edges, from, s) == step(edges, from, s.last()));
    } else {
        lemma_follow_first(edges, from, s.drop_last());
        assert(s.drop_first().drop_last() =~= s.drop_last().drop_first());
        assert(s.drop_last()[0] == s[0]);
        assert(s.drop_first().last() == s.last());
        assert(follow(edges, from, s) == step(
            edges,
            follow(edges, from, s.drop_last()),
            s.last(),
        ));
        assert(follow(edges, next, s.drop_first()) == step(
            edges,
            follow(edges, next, s.drop_first().drop_last()),
            s.drop_first().last(),
        ));
    }
}

/// From no node, no string reaches a node.
pub proof fn lemma_follow_nothing(edges: Set<Edge>, from: Set<Node>, s: Seq<char>)
    requires
        !inhabited(from),
    ensures
        !inhabited(follow(edges, from, s)),
    decreases s.len(),
{
    if s.len() > 0 {
        lemma_follow_nothing(edges, from, s.drop_last());
    }
}

/// The transition that leaves the state of a met set under a character.
proof fn lemma_next_is_step(g: Nfa, nodes: Set<Node>, c: char)
    requires
        discovered(g, nodes),
    ensures
        subset_construction(g).next(state_of(g, nodes), c) == (if inhabited(
            step(g.edges, nodes, c),
        ) {
            Some(state_of(g, step(g.edges, nodes, c)))
        } else {
            None
        }),
{
    let dfa = subset_construction(g);
    let q = state_of(g, nodes);
    if inhabited(step(g.edges, nodes, c)) {
        lemma_transition_exists(g, nodes, c);
        let made = Transition { condition: c, from: q, to: state_of(g, step(g.edges, nodes, c)) };
        assert(dfa.edges.contains(made) && made.from == q && made.condition == c);
        assert(dfa.has_next(q, c));
    } else {
        if dfa.has_next(q, c) {
            let t = choose|t: Transition| dfa.edges.contains(t) && t.from == q && t.condition == c;
            assert(is_transition(g, t));
        }
    }
}

/// The run of the automaton of a graph from the state of a met set ends in
/// the state of what the string reaches from that set, and it fails when
/// the string reaches nothing.
pub proof fn lemma_run_is_follow(g: Nfa, nodes: Set<Node>, s: Seq<char>)
    requires
        discovered(g, nodes),
    ensures
        subset_construction(g).run(state_of(g, nodes), s) == (if inhabited(
            follow(g.edges, nodes, s),
        ) {
            Some(state_of(g, follow(g.edges, nodes, s)))
        } else {
            None
        }),
    decreases s.len(),
{
    if s.len() > 0 {
        let c = s[0];
        lemma_next_is_step(g, nodes, c);
        lemma_follow_first(g.edges, nodes, s);
        if inhabited(step(g.edges, nodes, c)) {
            let w = choose|w: Seq<char>| follow(g.edges, set![g.start], w) == nodes;
            lemma_follow_push(g.edges, set![g.start], w, c);
            assert(discovered(g, step(g.edges, nodes, c)));
            lemma_run_is_follow(g, step(g.edges, nodes, c), s.drop_first());
        } else {
            lemma_follow_nothing(g.edges, step(g.edges, nodes, c), s.drop_first());
        }
    }
}

/// What labelled edges reach by a string, some walk reaches spelling it.
pub proof fn lemma_follow_has_walk(edges: Set<Edge>, n: Node, s: Seq<char>, x: Node)
    requires
        follow(edges, set![n], s).contains(x),
    ensures
        reaches(edges, n, s, x),
    decreases s.len(),
{
    if s.len() == 0 {
        let p = Seq::<Edge>::empty();
        assert(is_walk(edges, n, p, x));
        assert(label(p) =~= s);
    } else {
        let before = follow(edges, set![n], s.drop_last());
        let m = choose|m: Node|
            before.contains(m) && edges.contains(Edge { condition: Some(s.last()), from: m, to: x });
        let e = Edge { condition: Some(s.last()), from: m, to: x };
        lemma_follow_has_walk(edges, n, s.drop_last(), m);
        let p = choose|p: Seq<Edge>| is_walk(edges, n, p, m) && label(p) == s.drop_last();
        lemma_walk_single(edges, e);
        lemma_walk_join(edges, n, p, m, seq![e], x);
        assert(label(p + seq![e]) =~= s);
    }
}

/// Without epsilon edges, what a walk reaches is what its string reaches.
pub proof fn lemma_walk_is_followed(edges: Set<Edge>, n: Node, p: Seq<Edge>, x: Node)
    requires
        is_walk(edges, n, p, x),
        forall|e: Edge| edges.contains(e) ==> e.condition is Some,
    ensures
        follow(edges, set![n], label(p)).contains(x),
    decreases p.len(),
{
    if p.len() == 0 {
        assert(label(p) =~= Seq::<char>::empty());
    } else {
        let k = p.len() - 1;
        let mid = lemma_walk_cut(edges, n, p, x, k);
        let head = p.subrange(0, k);
        let tail = p.subrange(k, p.len() as int);
        lemma_walk_is_followed(edges, n, head, mid);
        lemma_walk_steps(edges, n, p, x, k);
        let e = p[k];
        assert(tail =~= seq![e]);
        lemma_walk_single(edges, e);
        let c = e.condition->0;
        assert(label(p) =~= label(head).push(c));
        assert(label(p).drop_last() =~= label(head));
        assert(e == Edge { condition: Some(c), from: mid, to: x }) by {
            if k > 0 {
                assert(p[k - 1].to == p[k].from);
            }
        }
    }
}

/// The automaton of a graph without epsilon edges accepts exactly the
/// strings that the graph accepts.
pub proof fn lemma_subset_construction_keeps_language(g: Nfa, s: Seq<char>)
    requires
        g.epsilon_free(),
    ensures
        subset_construction(g).accepts(s) == g.accepts(s),
{
    let dfa = subset_construction(g);
    let first = set![g.start];
    assert(first.contains(g.start));
    assert(follow(g.edges, first, Seq::<char>::empty()) == first);
    assert(discovered(g, first));
    lemma_run_is_follow(g, first, s);
    let reached = follow(g.edges, first, s);
    if dfa.accepts(s) {
        let a = choose|a: Node| reached.contains(a) && g.acceptors.contains(a);
        lemma_follow_has_walk(g.edges, g.start, s, a);
    }
    if g.accepts(s) {
        let a = choose|a: Node| g.acceptors.contains(a) && reaches(g.edges, g.start, s, a);
        let p = choose|p: Seq<Edge>| is_walk(g.edges, g.start, p, a) && label(p) == s;
        lemma_walk_is_followed(g.edges, g.start, p, a);
        assert(reached.contains(a));
    }
}

} // verus!
