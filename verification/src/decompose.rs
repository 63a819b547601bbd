//! How the language of a combined graph falls apart into the languages of
//! its parts: what the whole accepts, the parts accept piece by piece.

use crate::compose::lemma_accepts_by_walk;
use crate::compose::lemma_walk_of_accepted;
use crate::expr::repeats;
use crate::expr::Tree;
use crate::graph::Edge;
use crate::nfa::branch_graph;
use crate::nfa::choice_graph;
use crate::nfa::linked_graph;
use crate::nfa::star_graph;
use crate::nfa::unit_graph;
use crate::node::Node;
use crate::walk::is_walk;
use crate::walk::label;
use crate::walk::lemma_walk_join;
use crate::walk::lemma_walk_single;
use crate::walk::lemma_walk_steps;
use crate::walk::letter;
use crate::walk::reaches;
use crate::walk::Nfa;
use vstd::prelude::*;

verus! {

/// Whether the identity of `n` lies in `lo..hi`.
pub open spec fn within(n: Node, lo: int, hi: int) -> bool {
    lo <= n.id < hi
}

/// Whether all nodes of the graph have their identities in `lo..hi`.
pub open spec fn confined(g: Nfa, lo: int, hi: int) -> bool {
    &&& within(g.start, lo, hi)
    &&& forall|a: Node| #[trigger] g.acceptors.contains(a) ==> within(a, lo, hi)
    &&& forall|e: Edge| #[trigger]
        g.edges.contains(e) ==> within(e.from, lo, hi) && within(e.to, lo, hi)
}

/// Whether no edge leads into the start node.
pub open spec fn entered_at_start_only(g: Nfa) -> bool {
    forall|e: Edge| #[trigger] g.edges.contains(e) ==> e.to != g.start
}

/// Whether no edge leaves an acceptor.
pub open spec fn left_at_end_only(g: Nfa) -> bool {
    forall|e: Edge| #[trigger] g.edges.contains(e) ==> !g.acceptors.contains(e.from)
}

/// A walk from a node that no edge leaves is empty.
pub proof fn lemma_walk_from_dead_end(edges: Set<Edge>, x: Node, p: Seq<Edge>, y: Node)
    requires
        is_walk(edges, x, p, y),
        forall|e: Edge| #[trigger] edges.contains(e) ==> e.from != x,
    ensures
        p.len() == 0,
        x == y,
{
}

/// A walk to a node that no edge leads into is empty.
pub proof fn lemma_walk_to_source(edges: Set<Edge>, x: Node, p: Seq<Edge>, y: Node)
    requires
        is_walk(edges, x, p, y),
        forall|e: Edge| #[trigger] edges.contains(e) ==> e.to != y,
    ensures
        p.len() == 0,
        x == y,
{
    if p.len() > 0 {
        lemma_walk_steps(edges, x, p, y, p.len() - 1);
    }
}

/// A walk that begins inside a part which the edges of the whole do not
/// lead out of is a walk of the part.
pub proof fn lemma_walk_stays(
    whole: Set<Edge>,
    part: Set<Edge>,
    lo: int,
    hi: int,
    x: Node,
    p: Seq<Edge>,
    y: Node,
)
    requires
        is_walk(whole, x, p, y),
        within(x, lo, hi),
        forall|e: Edge|
            #[trigger] whole.contains(e) && within(e.from, lo, hi) ==> part.contains(e) && within(
                e.to,
                lo,
                hi,
            ),
    ensures
        is_walk(part, x, p, y),
        within(y, lo, hi),
    decreases p.len(),
{
    if p.len() > 0 {
        lemma_walk_stays(whole, part, lo, hi, p[0].to, p.drop_first(), y);
    }
}

/// The graph of a choice of characters accepts only one-character strings
/// of listed characters.
pub proof fn lemma_choice_accepted(chars: Seq<char>, from: Node, to: Node, s: Seq<char>)
    requires
        from != to,
        choice_graph(chars, from, to).accepts(s),
    ensures
        s.len() == 1,
        chars.contains(s[0]),
{
    let g = choice_graph(chars, from, to);
    let found = lemma_walk_of_accepted(g, s);
    let p = found.0;
    assert(p.len() > 0);
    lemma_walk_from_dead_end(g.edges, to, p.drop_first(), to);
    assert(label(p.drop_first()) =~= Seq::<char>::empty());
    assert(label(p) =~= letter(p[0]));
}

/// The graph of one node accepts only the empty string.
pub proof fn lemma_unit_accepted(only: Node, s: Seq<char>)
    requires
        unit_graph(only).accepts(s),
    ensures
        s.len() == 0,
{
    let g = unit_graph(only);
    let found = lemma_walk_of_accepted(g, s);
    lemma_walk_from_dead_end(g.edges, only, found.0, found.1);
}

/// A walk of the whole that begins inside a part and ends at a node
/// outside of it, where the only edges that leave the part are epsilon
/// edges from its acceptors to that node and nothing leaves that node:
/// but for its last step the walk is a walk of the part to an acceptor.
pub proof fn lemma_walk_leaves(
    whole: Set<Edge>,
    part: Nfa,
    lo: int,
    hi: int,
    end: Node,
    x: Node,
    p: Seq<Edge>,
) -> (found: (Seq<Edge>, Node))
    requires
        is_walk(whole, x, p, end),
        within(x, lo, hi),
        !within(end, lo, hi),
        forall|e: Edge| #[trigger] whole.contains(e) ==> e.from != end,
        forall|e: Edge|
            #[trigger] whole.contains(e) && within(e.from, lo, hi) ==> (part.edges.contains(e)
                && within(e.to, lo, hi)) || (e.condition is None && part.acceptors.contains(e.from)
                && e.to == end),
    ensures
        is_walk(part.edges, x, found.0, found.1),
        part.acceptors.contains(found.1),
        label(found.0) == label(p),
    decreases p.len(),
{
    let e = p[0];
    let rest = p.drop_first();
    if part.edges.contains(e) && within(e.to, lo, hi) {
        let inner = lemma_walk_leaves(whole, part, lo, hi, end, e.to, rest);
        lemma_walk_single(part.edges, e);
        lemma_walk_join(part.edges, x, seq![e], e.to, inner.0, inner.1);
        assert(label(seq![e] + inner.0) =~= label(p));
        (seq![e] + inner.0, inner.1)
    } else {
        lemma_walk_from_dead_end(whole, end, rest, end);
        let none = Seq::<Edge>::empty();
        assert(is_walk(part.edges, x, none, x));
        assert(label(rest) =~= Seq::<char>::empty());
        assert(label(p) =~= label(none));
        (none, x)
    }
}

/// A branch accepts only what one of its sides accepts.
pub proof fn lemma_branch_accepted(
    left: Nfa,
    right: Nfa,
    start: Node,
    end: Node,
    s: Seq<char>,
    lo: int,
    mid: int,
    hi: int,
)
    requires
        confined(left, lo, mid),
        confined(right, mid, hi),
        !within(start, lo, hi),
        !within(end, lo, hi),
        start != end,
        branch_graph(left, right, start, end).accepts(s),
    ensures
        left.accepts(s) || right.accepts(s),
{
    let g = branch_graph(left, right, start, end);
    let found = lemma_walk_of_accepted(g, s);
    let p = found.0;
    assert(p.len() > 0);
    let enter = p[0];
    let rest = p.drop_first();
    assert(g.edges.contains(enter));
    assert(enter.condition is None);
    assert(label(p) =~= label(rest));
    if enter.to == left.start {
        let inner = lemma_walk_leaves(g.edges, left, lo, mid, end, left.start, rest);
        lemma_accepts_by_walk(left, inner.0, inner.1, s);
    } else {
        let inner = lemma_walk_leaves(g.edges, right, mid, hi, end, right.start, rest);
        lemma_accepts_by_walk(right, inner.0, inner.1, s);
    }
}

/// A walk of two linked graphs from a node of the first to a node of the
/// second is a walk of the first to one of its acceptors, then the epsilon
/// edge to the start node of the second, then a walk of the second.
pub proof fn lemma_walk_crosses(
    before: Nfa,
    next: Nfa,
    lo: int,
    mid: int,
    hi: int,
    x: Node,
    p: Seq<Edge>,
    y: Node,
) -> (found: (Seq<Edge>, Node, Seq<Edge>))
    requires
        confined(before, lo, mid),
        confined(next, mid, hi),
        is_walk(linked_graph(before, next).edges, x, p, y),
        within(x, lo, mid),
        within(y, mid, hi),
    ensures
        is_walk(before.edges, x, found.0, found.1),
        before.acceptors.contains(found.1),
        is_walk(next.edges, next.start, found.2, y),
        label(p) == label(found.0) + label(found.2),
    decreases p.len(),
{
    let g = linked_graph(before, next);
    let e = p[0];
    let rest = p.drop_first();
    assert(g.edges.contains(e));
    if before.edges.contains(e) {
        let inner = lemma_walk_crosses(before, next, lo, mid, hi, e.to, rest, y);
        lemma_walk_single(before.edges, e);
        lemma_walk_join(before.edges, x, seq![e], e.to, inner.0, inner.1);
        assert(label(p) =~= label(seq![e] + inner.0) + label(inner.2));
        (seq![e] + inner.0, inner.1, inner.2)
    } else {
        assert(!next.edges.contains(e));
        lemma_walk_stays(g.edges, next.edges, mid, hi, next.start, rest, y);
        let none = Seq::<Edge>::empty();
        assert(is_walk(before.edges, x, none, x));
        assert(label(p) =~= label(none) + label(rest));
        (none, x, rest)
    }
}

/// Two linked graphs accept only what splits into a string that the first
/// accepts and a string that the second accepts.
pub proof fn lemma_linked_accepted(
    before: Nfa,
    next: Nfa,
    lo: int,
    mid: int,
    hi: int,
    s: Seq<char>,
) -> (k: int)
    requires
        confined(before, lo, mid),
        confined(next, mid, hi),
        linked_graph(before, next).accepts(s),
    ensures
        0 <= k <= s.len(),
        before.accepts(s.subrange(0, k)),
        next.accepts(s.subrange(k, s.len() as int)),
{
    let g = linked_graph(before, next);
    let found = lemma_walk_of_accepted(g, s);
    let parts = lemma_walk_crosses(before, next, lo, mid, hi, g.start, found.0, found.1);
    let k = label(parts.0).len() as int;
    assert(s.subrange(0, k) =~= label(parts.0));
    assert(s.subrange(k, s.len() as int) =~= label(parts.2));
    lemma_accepts_by_walk(before, parts.0, parts.1, s.subrange(0, k));
    lemma_accepts_by_walk(next, parts.2, found.1, s.subrange(k, s.len() as int));
    k
}

/// Whether the graph is a loop already: its start node is an acceptor, and
/// epsilon edges lead from the start node to every other acceptor and back.
pub open spec fn looped(g: Nfa) -> bool {
    &&& g.acceptors.contains(g.start)
    &&& forall|a: Node|
        #[trigger] g.acceptors.contains(a) && a != g.start ==> g.edges.contains(
            Edge { condition: None, from: g.start, to: a },
        ) && g.edges.contains(Edge { condition: None, from: a, to: g.start })
}

/// A walk that may use an epsilon edge from a node to itself has a walk
/// between the same nodes that does without and spells the same string.
pub proof fn lemma_walk_skips_self_loop(
    edges: Set<Edge>,
    at: Node,
    x: Node,
    p: Seq<Edge>,
    y: Node,
) -> (q: Seq<Edge>)
    requires
        is_walk(edges.insert(Edge { condition: None, from: at, to: at }), x, p, y),
    ensures
        is_walk(edges, x, q, y),
        label(q) == label(p),
    decreases p.len(),
{
    if p.len() == 0 {
        p
    } else {
        let rest = lemma_walk_skips_self_loop(edges, at, p[0].to, p.drop_first(), y);
        if edges.contains(p[0]) {
            lemma_walk_single(edges, p[0]);
            lemma_walk_join(edges, x, seq![p[0]], p[0].to, rest, y);
            assert(label(seq![p[0]] + rest) =~= label(p));
            seq![p[0]] + rest
        } else {
            assert(label(p) =~= label(rest));
            rest
        }
    }
}

/// To repeat a graph that is a loop already adds nothing to what it
/// accepts.
pub proof fn lemma_star_of_loop_accepted(sub: Nfa, s: Seq<char>)
    requires
        looped(sub),
        star_graph(sub).accepts(s),
    ensures
        sub.accepts(s),
{
    let whole = star_graph(sub);
    let found = lemma_walk_of_accepted(whole, s);
    let turn = Edge { condition: None, from: sub.start, to: sub.start };
    assert(whole.edges.subset_of(sub.edges.insert(turn)));
    crate::walk::lemma_walk_more_edges(
        whole.edges,
        sub.edges.insert(turn),
        sub.start,
        found.0,
        found.1,
    );
    let q = lemma_walk_skips_self_loop(sub.edges, sub.start, sub.start, found.0, found.1);
    lemma_accepts_by_walk(sub, q, found.1, s);
}

/// What the operand matches and then what the repetition matches, the
/// repetition matches.
pub proof fn lemma_repeats_more(inner: Tree, first: Seq<char>, rest: Seq<char>)
    requires
        inner.matches(first),
        repeats(inner, rest),
    ensures
        repeats(inner, first + rest),
{
    let s = first + rest;
    if first.len() == 0 {
        assert(s =~= rest);
    } else {
        let k = first.len() as int;
        assert(s.subrange(0, k) =~= first);
        assert(s.subrange(k, s.len() as int) =~= rest);
    }
}

/// What the operand matches, the repetition matches.
pub proof fn lemma_repeats_one(inner: Tree, s: Seq<char>)
    requires
        inner.matches(s),
    ensures
        repeats(inner, s),
{
    assert(repeats(inner, Seq::<char>::empty()));
    lemma_repeats_more(inner, s, Seq::<char>::empty());
    assert(s + Seq::<char>::empty() =~= s);
}

/// A walk of a repeated graph between nodes at which a round begins or
/// ends spells rounds of the operand.
pub proof fn lemma_rounds(sub: Nfa, inner: Tree, x: Node, p: Seq<Edge>, y: Node)
    requires
        entered_at_start_only(sub),
        left_at_end_only(sub),
        forall|w: Seq<char>| #[trigger] sub.accepts(w) ==> inner.matches(w),
        is_walk(star_graph(sub).edges, x, p, y),
        x == sub.start || sub.acceptors.contains(x),
        y == sub.start || sub.acceptors.contains(y),
    ensures
        repeats(inner, label(p)),
    decreases p.len(), 0nat,
{
    if p.len() == 0 {
        assert(label(p) =~= Seq::<char>::empty());
    } else {
        let e = p[0];
        let rest = p.drop_first();
        if sub.edges.contains(e) {
            lemma_walk_single(sub.edges, e);
            assert(reaches(sub.edges, sub.start, letter(e), e.to));
            lemma_round_goes_on(sub, inner, e.to, letter(e), rest, y);
        } else {
            lemma_rounds(sub, inner, e.to, rest, y);
            assert(label(p) =~= label(rest));
        }
    }
}

/// A walk of a repeated graph that goes on from inside a round, after the
/// round has spelled `so_far`, spells the rest of this round and then
/// rounds of the operand.
pub proof fn lemma_round_goes_on(
    sub: Nfa,
    inner: Tree,
    x: Node,
    so_far: Seq<char>,
    p: Seq<Edge>,
    y: Node,
)
    requires
        entered_at_start_only(sub),
        left_at_end_only(sub),
        forall|w: Seq<char>| #[trigger] sub.accepts(w) ==> inner.matches(w),
        reaches(sub.edges, sub.start, so_far, x),
        is_walk(star_graph(sub).edges, x, p, y),
        y == sub.start || sub.acceptors.contains(y),
    ensures
        repeats(inner, so_far + label(p)),
    decreases p.len(), 1nat,
{
    let round = choose|q: Seq<Edge>| is_walk(sub.edges, sub.start, q, x) && label(q) == so_far;
    if p.len() > 0 && sub.edges.contains(p[0]) {
        let e = p[0];
        let rest = p.drop_first();
        lemma_walk_single(sub.edges, e);
        lemma_walk_join(sub.edges, sub.start, round, x, seq![e], e.to);
        assert(reaches(sub.edges, sub.start, so_far + letter(e), e.to));
        lemma_round_goes_on(sub, inner, e.to, so_far + letter(e), rest, y);
        assert(so_far + letter(e) + label(rest) =~= so_far + label(p));
    } else {
        if p.len() > 0 {
            assert(star_graph(sub).edges.contains(p[0]));
        }
        if sub.acceptors.contains(x) {
            assert(sub.accepts(so_far));
            lemma_rounds(sub, inner, x, p, y);
            lemma_repeats_more(inner, so_far, label(p));
        } else {
            lemma_walk_to_source(sub.edges, sub.start, round, x);
            lemma_rounds(sub, inner, x, p, y);
            assert(so_far + label(p) =~= label(p));
        }
    }
}

/// A repeated graph whose operand is entered at its start node only and
/// left at its acceptors only accepts only rounds of the operand.
pub proof fn lemma_star_accepted(sub: Nfa, inner: Tree, s: Seq<char>)
    requires
        entered_at_start_only(sub),
        left_at_end_only(sub),
        forall|w: Seq<char>| #[trigger] sub.accepts(w) ==> inner.matches(w),
        star_graph(sub).accepts(s),
    ensures
        repeats(inner, s),
{
    let found = lemma_walk_of_accepted(star_graph(sub), s);
    lemma_rounds(sub, inner, sub.start, found.0, found.1);
}

} // verus!
