//! The graph of an expression accepts the language of the expression:
//! all of it always, and nothing else where the loops of the expression are
//! isolated.

use crate::compose::lemma_branch_accepts;
use crate::compose::lemma_choice_accepts;
use crate::compose::lemma_linked_accepts;
use crate::compose::lemma_star_accepts_more;
use crate::compose::lemma_star_accepts_nothing;
use crate::compose::lemma_unit_accepts;
use crate::decompose::confined;
use crate::decompose::entered_at_start_only;
use crate::decompose::left_at_end_only;
use crate::decompose::lemma_branch_accepted;
use crate::decompose::lemma_choice_accepted;
use crate::decompose::lemma_linked_accepted;
use crate::decompose::lemma_repeats_one;
use crate::decompose::lemma_star_accepted;
use crate::decompose::lemma_star_of_loop_accepted;
use crate::decompose::looped;
use crate::decompose::lemma_unit_accepted;
use crate::expr::chains;
use crate::expr::lemma_chains_unfolds;
use crate::expr::lemma_repeats_unfolds;
use crate::expr::repeats;
use crate::expr::Tree;
use crate::graph::Edge;
use crate::nfa::chain;
use crate::nfa::chain_count;
use crate::nfa::linked_graph;
use crate::nfa::node_at;
use crate::nfa::node_count;
use crate::nfa::thompson;
use crate::node::Node;
use vstd::prelude::*;

verus! {

/// Whether the nodes of the graph of `expr`, issued from `base` on, have
/// identities that the machine can hold.
pub open spec fn fits(expr: Tree, base: nat) -> bool {
    base + node_count(expr) <= usize::MAX
}

/// The graph of the first items of a sequence, by its last item.
pub proof fn lemma_chain_unfolds(items: Seq<Tree>, upto: nat, base: nat)
    requires
        1 <= upto <= items.len(),
    ensures
        upto == 1 ==> chain(items, upto, base) == thompson(items[0], base),
        upto > 1 ==> chain(items, upto, base) == linked_graph(
            chain(items, (upto - 1) as nat, base),
            thompson(items[upto - 1], base + chain_count(items, (upto - 1) as nat)),
        ),
        chain_count(items, upto) == chain_count(items, (upto - 1) as nat) + node_count(
            items[upto - 1],
        ),
        chain_count(items, 0) == 0,
{
}

/// The graph of an expression takes at least one node, and all its nodes
/// are among those issued for it.
pub proof fn lemma_thompson_confined(expr: Tree, base: nat)
    requires
        fits(expr, base),
    ensures
        node_count(expr) >= 1,
        confined(thompson(expr, base), base as int, (base + node_count(expr)) as int),
    decreases expr, 0nat,
{
    match expr {
        Tree::Character(_) => {},
        Tree::Range(_) => {},
        Tree::Repetition(inner) => {
            lemma_thompson_confined(*inner, base);
        },
        Tree::Branch(lhs, rhs) => {
            lemma_thompson_confined(*lhs, base);
            lemma_thompson_confined(*rhs, base + node_count(*lhs));
        },
        Tree::Sequence(items) => {
            if items.len() > 0 {
                lemma_chain_confined(items, items.len(), base);
            }
        },
    }
}

/// The graph of the first items of a sequence takes at least one node, and
/// all its nodes are among those issued for it.
pub proof fn lemma_chain_confined(items: Seq<Tree>, upto: nat, base: nat)
    requires
        1 <= upto <= items.len(),
        base + chain_count(items, upto) <= usize::MAX,
    ensures
        chain_count(items, upto) >= 1,
        confined(chain(items, upto, base), base as int, (base + chain_count(items, upto)) as int),
    decreases items, upto,
{
    if upto == 1 {
        assert(chain_count(items, 0) == 0);
        lemma_thompson_confined(items[0], base);
    } else {
        let done = chain_count(items, (upto - 1) as nat);
        lemma_chain_confined(items, (upto - 1) as nat, base);
        lemma_thompson_confined(items[upto - 1], base + done);
    }
}

/// Where the first item of a sequence begins in a node of its own, so
/// does the graph of its first items.
pub proof fn lemma_chain_entered(items: Seq<Tree>, upto: nat, base: nat)
    requires
        1 <= upto <= items.len(),
        base + chain_count(items, upto) <= usize::MAX,
        items[0].opens_fresh(),
    ensures
        entered_at_start_only(chain(items, upto, base)),
    decreases items, upto,
{
    if upto == 1 {
        assert(chain_count(items, 0) == 0);
        lemma_thompson_entered(items[0], base);
    } else {
        let done = chain_count(items, (upto - 1) as nat);
        lemma_chain_entered(items, (upto - 1) as nat, base);
        lemma_chain_confined(items, (upto - 1) as nat, base);
        lemma_thompson_confined(items[upto - 1], base + done);
    }
}

/// The graph of an expression that begins in a node of its own has no
/// edge into its start node.
pub proof fn lemma_thompson_entered(expr: Tree, base: nat)
    requires
        fits(expr, base),
        expr.opens_fresh(),
    ensures
        entered_at_start_only(thompson(expr, base)),
    decreases expr, 0nat,
{
    match expr {
        Tree::Character(_) => {},
        Tree::Range(_) => {},
        Tree::Repetition(_) => {},
        Tree::Branch(lhs, rhs) => {
            lemma_thompson_confined(*lhs, base);
            lemma_thompson_confined(*rhs, base + node_count(*lhs));
        },
        Tree::Sequence(items) => {
            if items.len() > 0 {
                lemma_chain_entered(items, items.len(), base);
            }
        },
    }
}

/// The graph of an expression that ends in nodes of its own has no edge
/// that leaves an acceptor.
pub proof fn lemma_thompson_left(expr: Tree, base: nat)
    requires
        fits(expr, base),
        expr.closes_fresh(),
    ensures
        left_at_end_only(thompson(expr, base)),
    decreases expr,
{
    match expr {
        Tree::Character(_) => {},
        Tree::Range(_) => {},
        Tree::Repetition(_) => {},
        Tree::Branch(lhs, rhs) => {
            lemma_thompson_confined(*lhs, base);
            lemma_thompson_confined(*rhs, base + node_count(*lhs));
        },
        Tree::Sequence(items) => {
            let n = items.len();
            if n == 1 {
                assert(chain_count(items, 0) == 0);
                assert(chain_count(items, 1) == node_count(items[0]));
                lemma_chain_unfolds(items, 1, base);
                lemma_thompson_left(items[0], base);
            } else if n > 1 {
                let done = chain_count(items, (n - 1) as nat);
                assert(chain_count(items, n) == done + node_count(items[n - 1]));
                lemma_chain_confined(items, (n - 1) as nat, base);
                lemma_thompson_confined(items[n - 1], base + done);
                lemma_thompson_left(items[n - 1], base + done);
                lemma_chain_unfolds(items, n, base);
            }
        },
    }
}

/// The graph of an expression has an acceptor.
pub proof fn lemma_thompson_has_acceptor(expr: Tree, base: nat) -> (a: Node)
    ensures
        thompson(expr, base).acceptors.contains(a),
    decreases expr, 0nat,
{
    match expr {
        Tree::Character(_) => node_at(base + 1),
        Tree::Range(_) => node_at(base + 1),
        Tree::Repetition(inner) => thompson(*inner, base).start,
        Tree::Branch(lhs, rhs) => node_at(base + node_count(*lhs) + node_count(*rhs) + 1),
        Tree::Sequence(items) => {
            if items.len() == 0 {
                node_at(base)
            } else {
                lemma_chain_has_acceptor(items, items.len(), base)
            }
        },
    }
}

/// The graph of the first items of a sequence has an acceptor.
pub proof fn lemma_chain_has_acceptor(items: Seq<Tree>, upto: nat, base: nat) -> (a: Node)
    requires
        1 <= upto <= items.len(),
    ensures
        chain(items, upto, base).acceptors.contains(a),
    decreases items, upto,
{
    lemma_chain_unfolds(items, upto, base);
    if upto == 1 {
        lemma_thompson_has_acceptor(items[0], base)
    } else {
        lemma_thompson_has_acceptor(
            items[upto - 1],
            base + chain_count(items, (upto - 1) as nat),
        )
    }
}

/// The graph of a repetition is a loop.
pub proof fn lemma_thompson_looped(expr: Tree, base: nat)
    requires
        expr.is_loop(),
    ensures
        looped(thompson(expr, base)),
    decreases expr,
{
    match expr {
        Tree::Repetition(inner) => {
            let sub = thompson(*inner, base);
            let whole = thompson(expr, base);
            assert forall|a: Node| #[trigger] whole.acceptors.contains(a) && a != whole.start implies whole.edges.contains(
                Edge { condition: None, from: whole.start, to: a },
            ) && whole.edges.contains(Edge { condition: None, from: a, to: whole.start }) by {
                assert(sub.acceptors.contains(a));
                assert(crate::nfa::fan_out(sub.start, sub.acceptors).contains(
                    Edge { condition: None, from: whole.start, to: a },
                ));
                assert(crate::nfa::fan_in(sub.acceptors, sub.start).contains(
                    Edge { condition: None, from: a, to: whole.start },
                ));
            }
        },
        Tree::Sequence(items) => {
            lemma_chain_unfolds(items, 1, base);
            lemma_thompson_looped(items[0], base);
        },
        _ => {},
    }
}

/// Completeness: the graph of an expression accepts every string of the
/// language of the expression.
pub proof fn lemma_matched_is_accepted(expr: Tree, base: nat, s: Seq<char>)
    requires
        expr.matches(s),
    ensures
        thompson(expr, base).accepts(s),
    decreases expr, s.len(),
{
    match expr {
        Tree::Character(c) => {
            assert(seq![c][0] == c);
            lemma_choice_accepts(seq![c], node_at(base), node_at(base + 1), c);
        },
        Tree::Range(chars) => {
            lemma_choice_accepts(chars, node_at(base), node_at(base + 1), s[0]);
            assert(s =~= seq![s[0]]);
        },
        Tree::Repetition(inner) => {
            let sub = thompson(*inner, base);
            if s.len() == 0 {
                lemma_star_accepts_nothing(sub);
                assert(s =~= Seq::<char>::empty());
            } else {
                lemma_repeats_unfolds(*inner, s);
                let k = choose|k: int|
                    0 < k <= s.len() && inner.matches(#[trigger] s.subrange(0, k)) && repeats(
                        *inner,
                        s.subrange(k, s.len() as int),
                    );
                lemma_matched_is_accepted(*inner, base, s.subrange(0, k));
                lemma_matched_is_accepted(expr, base, s.subrange(k, s.len() as int));
                lemma_star_accepts_more(sub, s.subrange(0, k), s.subrange(k, s.len() as int));
                assert(s.subrange(0, k) + s.subrange(k, s.len() as int) =~= s);
            }
        },
        Tree::Branch(lhs, rhs) => {
            if lhs.matches(s) {
                lemma_matched_is_accepted(*lhs, base, s);
            } else {
                lemma_matched_is_accepted(*rhs, base + node_count(*lhs), s);
            }
            lemma_branch_accepts(
                thompson(*lhs, base),
                thompson(*rhs, base + node_count(*lhs)),
                node_at(base + node_count(*lhs) + node_count(*rhs)),
                node_at(base + node_count(*lhs) + node_count(*rhs) + 1),
                s,
            );
        },
        Tree::Sequence(items) => {
            if items.len() == 0 {
                lemma_chains_unfolds(items, 0, s);
                lemma_unit_accepts(node_at(base));
                assert(s =~= Seq::<char>::empty());
            } else {
                lemma_chained_is_accepted(items, items.len(), base, s);
            }
        },
    }
}

/// Completeness for the first items of a sequence.
pub proof fn lemma_chained_is_accepted(items: Seq<Tree>, upto: nat, base: nat, s: Seq<char>)
    requires
        1 <= upto <= items.len(),
        chains(items, upto, s),
    ensures
        chain(items, upto, base).accepts(s),
    decreases items, upto,
{
    lemma_chain_unfolds(items, upto, base);
    lemma_chains_unfolds(items, upto, s);
    let k = choose|k: int|
        0 <= k <= s.len() && chains(items, (upto - 1) as nat, #[trigger] s.subrange(0, k))
            && items[upto - 1].matches(s.subrange(k, s.len() as int));
    let first = s.subrange(0, k);
    let rest = s.subrange(k, s.len() as int);
    assert(first + rest =~= s);
    if upto == 1 {
        assert(first.len() == 0);
        assert(rest =~= s);
        lemma_matched_is_accepted(items[0], base, s);
    } else {
        let done = chain_count(items, (upto - 1) as nat);
        lemma_chained_is_accepted(items, (upto - 1) as nat, base, first);
        lemma_matched_is_accepted(items[upto - 1], base + done, rest);
        lemma_linked_accepts(
            chain(items, (upto - 1) as nat, base),
            thompson(items[upto - 1], base + done),
            first,
            rest,
        );
    }
}

/// Soundness: the graph of an expression whose loops are isolated accepts
/// only strings of the language of the expression.
pub proof fn lemma_accepted_is_matched(expr: Tree, base: nat, s: Seq<char>)
    requires
        expr.loops_isolated(),
        fits(expr, base),
        thompson(expr, base).accepts(s),
    ensures
        expr.matches(s),
    decreases expr, 0nat,
{
    match expr {
        Tree::Character(c) => {
            lemma_choice_accepted(seq![c], node_at(base), node_at(base + 1), s);
            assert(s =~= seq![c]);
        },
        Tree::Range(chars) => {
            lemma_choice_accepted(chars, node_at(base), node_at(base + 1), s);
        },
        Tree::Repetition(inner) => {
            let sub = thompson(*inner, base);
            if inner.is_loop() {
                lemma_thompson_looped(*inner, base);
                lemma_star_of_loop_accepted(sub, s);
                lemma_accepted_is_matched(*inner, base, s);
                lemma_repeats_one(*inner, s);
            } else {
                lemma_thompson_entered(*inner, base);
                lemma_thompson_left(*inner, base);
                assert forall|w: Seq<char>| #[trigger] sub.accepts(w) implies inner.matches(
                    w,
                ) by {
                    lemma_accepted_is_matched(*inner, base, w);
                }
                lemma_star_accepted(sub, *inner, s);
            }
        },
        Tree::Branch(lhs, rhs) => {
            let mid = base + node_count(*lhs);
            let top = mid + node_count(*rhs);
            lemma_thompson_confined(*lhs, base);
            lemma_thompson_confined(*rhs, mid);
            lemma_branch_accepted(
                thompson(*lhs, base),
                thompson(*rhs, mid),
                node_at(top),
                node_at(top + 1),
                s,
                base as int,
                mid as int,
                top as int,
            );
            if thompson(*lhs, base).accepts(s) {
                lemma_accepted_is_matched(*lhs, base, s);
            } else {
                lemma_accepted_is_matched(*rhs, mid, s);
            }
        },
        Tree::Sequence(items) => {
            if items.len() == 0 {
                lemma_chains_unfolds(items, 0, s);
                lemma_unit_accepted(node_at(base), s);
            } else {
                lemma_accepted_is_chained(items, items.len(), base, s);
            }
        },
    }
}

/// Soundness for the first items of a sequence.
pub proof fn lemma_accepted_is_chained(items: Seq<Tree>, upto: nat, base: nat, s: Seq<char>)
    requires
        1 <= upto <= items.len(),
        forall|i: int| 0 <= i < upto ==> (#[trigger] items[i]).loops_isolated(),
        base + chain_count(items, upto) <= usize::MAX,
        chain(items, upto, base).accepts(s),
    ensures
        chains(items, upto, s),
    decreases items, upto,
{
    lemma_chain_unfolds(items, upto, base);
    lemma_chains_unfolds(items, upto, s);
    if upto == 1 {
        lemma_accepted_is_matched(items[0], base, s);
        assert(s.subrange(0, 0).len() == 0);
        assert(chains(items, 0, s.subrange(0, 0)));
        assert(s.subrange(0, s.len() as int) =~= s);
    } else {
        let done = chain_count(items, (upto - 1) as nat);
        let before = chain(items, (upto - 1) as nat, base);
        let next = thompson(items[upto - 1], base + done);
        lemma_chain_confined(items, (upto - 1) as nat, base);
        lemma_thompson_confined(items[upto - 1], base + done);
        let k = lemma_linked_accepted(
            before,
            next,
            base as int,
            (base + done) as int,
            (base + chain_count(items, upto)) as int,
            s,
        );
        lemma_accepted_is_chained(items, (upto - 1) as nat, base, s.subrange(0, k));
        lemma_accepted_is_matched(items[upto - 1], base + done, s.subrange(k, s.len() as int));
    }
}

/// The graph of an expression whose loops are isolated accepts exactly the
/// language of the expression.
pub proof fn lemma_thompson_language(expr: Tree, base: nat, s: Seq<char>)
    requires
        expr.loops_isolated(),
        fits(expr, base),
    ensures
        thompson(expr, base).accepts(s) == expr.matches(s),
{
    if expr.matches(s) {
        lemma_matched_is_accepted(expr, base, s);
    }
    if thompson(expr, base).accepts(s) {
        lemma_accepted_is_matched(expr, base, s);
    }
}

} // verus!
