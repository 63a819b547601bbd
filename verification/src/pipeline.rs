//! The whole way from an expression to a matcher.

use crate::dfa::transitions_ascending;
use crate::dfa::DFA;
use crate::engine::Engine;
use crate::epsilon::eliminate;
use crate::epsilon::eliminated;
use crate::epsilon::lemma_eliminate_keeps_language;
use crate::epsilon::lemma_eliminated_epsilon_free;
use crate::expr::RegExpr;
use crate::expr::Tree;
use crate::graph::Graph;
use crate::nfa::build_nfa;
use crate::nfa::thompson;
use crate::nfa_language::fits;
use crate::nfa_language::lemma_thompson_language;
use crate::node::NodeAllocator;
use crate::subset::determinize;
use crate::subset::subset_construction;
use crate::subset_language::lemma_subset_construction_deterministic;
use crate::subset_language::lemma_subset_construction_keeps_language;
use crate::walk::Nfa;
use vstd::prelude::*;

verus! {

/// The deterministic automaton of a graph that may have epsilon edges: the
/// subset construction of its epsilon-free graph.
pub open spec fn automaton_of(g: Nfa) -> crate::dfa::Dfa {
    subset_construction(eliminated(g))
}

/// The automaton of a graph is deterministic and accepts exactly the
/// strings that the graph accepts.
pub proof fn lemma_automaton_keeps_language(g: Nfa, s: Seq<char>)
    ensures
        automaton_of(g).deterministic(),
        automaton_of(g).accepts(s) == g.accepts(s),
{
    lemma_eliminated_epsilon_free(g);
    lemma_eliminate_keeps_language(g, s);
    lemma_subset_construction_deterministic(eliminated(g));
    lemma_subset_construction_keeps_language(eliminated(g), s);
}

/// The automaton built from the graph of any expression accepts every string
/// of the language of the expression, and it accepts a string outside of
/// the language exactly when the graph of the expression does.
pub proof fn lemma_pipeline_holds_language(expr: Tree, base: nat, s: Seq<char>)
    ensures
        expr.matches(s) ==> automaton_of(thompson(expr, base)).accepts(s),
        automaton_of(thompson(expr, base)).accepts(s) == thompson(expr, base).accepts(s),
{
    lemma_automaton_keeps_language(thompson(expr, base), s);
    if expr.matches(s) {
        crate::nfa_language::lemma_matched_is_accepted(expr, base, s);
    }
}

/// The automaton built from the graph of an expression whose loops are
/// isolated accepts exactly the language of the expression.
pub proof fn lemma_pipeline_language(expr: Tree, base: nat, s: Seq<char>)
    requires
        expr.loops_isolated(),
        fits(expr, base),
    ensures
        automaton_of(thompson(expr, base)).accepts(s) == expr.matches(s),
{
    lemma_automaton_keeps_language(thompson(expr, base), s);
    lemma_thompson_language(expr, base, s);
}

/// Builds the deterministic automaton of `graph`, which may have epsilon
/// edges: they are eliminated first.
pub fn build_dfa(graph: &Graph) -> (dfa: DFA)
    ensures
        dfa@ == automaton_of(graph@),
        transitions_ascending(dfa.edges@),
        dfa@.deterministic(),
        forall|s: Seq<char>| #[trigger] dfa@.accepts(s) == graph@.accepts(s),
{
    let plain = eliminate(graph);
    let dfa = determinize(&plain);
    proof {
        assert forall|s: Seq<char>| #[trigger] dfa@.accepts(s) == graph@.accepts(s) by {
            lemma_automaton_keeps_language(graph@, s);
        }
        lemma_automaton_keeps_language(graph@, Seq::<char>::empty());
    }
    dfa
}

/// Compiles `expr` into a matcher: graph, epsilon elimination, subset
/// construction, transition table.
///
/// The matcher accepts what the graph of the expression accepts. That is
/// the language of the expression whenever its loops are isolated, and it
/// always holds the language of the expression.
pub fn compile(expr: &RegExpr) -> (engine: Engine)
    ensures
        engine@ == automaton_of(thompson(expr.tree(), 0)),
        forall|s: Seq<char>| #[trigger] engine@.accepts(s) == thompson(expr.tree(), 0).accepts(s),
        forall|s: Seq<char>| expr.tree().matches(s) ==> #[trigger] engine@.accepts(s),
        expr.tree().loops_isolated() ==> forall|s: Seq<char>| #[trigger]
            engine@.accepts(s) == expr.tree().matches(s),
{
    let mut alloc = NodeAllocator::new();
    let graph = build_nfa(expr, &mut alloc);
    let dfa = build_dfa(&graph);
    let engine = Engine::new(dfa);

    engine
}

} // verus!
