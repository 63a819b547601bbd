use regex_automaton::dfa::DFAEdge;
use regex_automaton::dfa::DFANode;
use regex_automaton::dfa::DFA;
use regex_automaton::diagram::DfaLine;
use regex_automaton::diagram::GraphLine;
use regex_automaton::engine::Engine;
use regex_automaton::epsilon::eliminate;
use regex_automaton::epsilon::reachable_through_epsilon;
use regex_automaton::expr::RegExpr;
use regex_automaton::graph::Edge;
use regex_automaton::graph::Graph;
use regex_automaton::nfa::build_nfa;
use regex_automaton::node::Node;
use regex_automaton::node::NodeAllocator;
use regex_automaton::node::NodeSet;
use regex_automaton::pipeline::build_dfa;
use regex_automaton::subset::determinize;
use regex_automaton::subset::holds_char;
use regex_automaton::subset::labels;
use regex_automaton::subset::new_dfa_node;
use regex_automaton::subset::successors;

fn node(id: usize) -> Node {
    Node { id }
}

fn edge(condition: Option<char>, from: usize, to: usize) -> Edge {
    Edge { condition, from: node(from), to: node(to) }
}

fn set(ids: &[usize]) -> NodeSet {
    let mut nodes = NodeSet::new();
    for id in ids {
        nodes.insert(node(*id));
    }
    nodes
}

fn ids(set: &NodeSet) -> Vec<usize> {
    set.to_vec().iter().map(|n| n.id).collect()
}

fn graph(start: usize, edges: &[Edge], acceptors: &[usize]) -> Graph {
    let mut graph = Graph::new(node(start));
    for e in edges {
        graph.add_edge(e.condition, e.from, e.to);
    }
    for a in acceptors {
        graph.acceptors.insert(node(*a));
    }
    graph
}

fn state(ids: &[usize], is_acceptor: bool) -> DFANode {
    DFANode { nodes: set(ids), is_acceptor }
}

fn transition(condition: char, from: &DFANode, to: &DFANode) -> DFAEdge {
    DFAEdge { condition, from: from.clone(), to: to.clone() }
}

#[test]
fn closure_follows_epsilon_edges_only() {
    let g = graph(
        0,
        &[edge(None, 0, 1), edge(None, 1, 2), edge(Some('a'), 2, 3), edge(None, 3, 4)],
        &[4],
    );
    assert_eq!(ids(&reachable_through_epsilon(&g, &set(&[0]))), vec![0, 1, 2]);
    assert_eq!(ids(&reachable_through_epsilon(&g, &set(&[3]))), vec![3, 4]);
    assert_eq!(ids(&reachable_through_epsilon(&g, &set(&[2, 3]))), vec![2, 3, 4]);
    assert_eq!(ids(&reachable_through_epsilon(&g, &set(&[9]))), vec![9]);
    assert_eq!(ids(&reachable_through_epsilon(&g, &set(&[]))), Vec::<usize>::new());
}

#[test]
fn closure_ends_on_an_epsilon_cycle() {
    let g = graph(0, &[edge(None, 0, 1), edge(None, 1, 2), edge(None, 2, 0), edge(None, 1, 1)], &[]);
    assert_eq!(ids(&reachable_through_epsilon(&g, &set(&[1]))), vec![0, 1, 2]);
}

#[test]
fn origins_are_acceptors_and_sources() {
    let g = graph(0, &[edge(None, 0, 1), edge(Some('a'), 2, 3)], &[5]);
    assert_eq!(ids(&g.origins()), vec![0, 2, 5]);
}

#[test]
fn eliminate_lifts_edges_and_acceptors_over_closures() {
    let g = graph(
        0,
        &[edge(None, 0, 1), edge(Some('a'), 1, 2), edge(None, 2, 3), edge(Some('b'), 3, 0)],
        &[3],
    );
    let plain = eliminate(&g);
    assert_eq!(plain.start, node(0));
    assert_eq!(
        plain.edges.to_vec(),
        vec![
            edge(Some('a'), 0, 2),
            edge(Some('a'), 1, 2),
            edge(Some('b'), 2, 0),
            edge(Some('b'), 3, 0),
        ]
    );
    assert_eq!(ids(&plain.acceptors), vec![2, 3]);
}

#[test]
fn eliminate_keeps_nodes_that_cannot_be_reached() {
    let g = graph(0, &[edge(Some('a'), 0, 1), edge(None, 7, 8), edge(Some('c'), 8, 9)], &[1, 8]);
    let plain = eliminate(&g);
    assert_eq!(
        plain.edges.to_vec(),
        vec![edge(Some('a'), 0, 1), edge(Some('c'), 7, 9), edge(Some('c'), 8, 9)]
    );
    assert_eq!(ids(&plain.acceptors), vec![1, 7, 8]);
}

#[test]
fn eliminate_of_a_repetition() {
    let mut alloc = NodeAllocator::new();
    let g = build_nfa(&RegExpr::Repetition(Box::new(RegExpr::Character('a'))), &mut alloc);
    let plain = eliminate(&g);
    assert_eq!(plain.edges.to_vec(), vec![edge(Some('a'), 0, 1), edge(Some('a'), 1, 1)]);
    assert_eq!(ids(&plain.acceptors), vec![0, 1]);
}

#[test]
fn lift_copies_labelled_edges_to_one_source() {
    let g = graph(0, &[edge(Some('a'), 1, 2), edge(None, 1, 3), edge(Some('b'), 4, 5)], &[]);
    let mut out = Graph::new(node(0));
    out.edges.lift(&g.edges, node(0), &set(&[1, 9]));
    assert_eq!(out.edges.to_vec(), vec![edge(Some('a'), 0, 2)]);
}

#[test]
fn successors_and_labels_of_a_subset() {
    let g = graph(
        0,
        &[
            edge(Some('a'), 0, 1),
            edge(Some('a'), 0, 2),
            edge(Some('b'), 1, 3),
            edge(Some('a'), 5, 6),
            edge(None, 0, 7),
        ],
        &[],
    );
    assert_eq!(ids(&successors(&g, &set(&[0]), 'a')), vec![1, 2]);
    assert_eq!(ids(&successors(&g, &set(&[0, 1]), 'b')), vec![3]);
    assert_eq!(ids(&successors(&g, &set(&[0]), 'c')), Vec::<usize>::new());
    assert_eq!(labels(&g, &set(&[0, 1])), vec!['a', 'b']);
    assert_eq!(labels(&g, &set(&[7])), Vec::<char>::new());
    assert!(holds_char(&vec!['a', 'b'], 'b'));
    assert!(!holds_char(&vec!['a', 'b'], 'c'));
}

#[test]
fn state_accepts_when_it_holds_an_acceptor() {
    let g = graph(0, &[], &[2]);
    assert!(DFANode::new(set(&[1, 2]), &g).is_acceptor);
    assert!(!DFANode::new(set(&[0, 1]), &g).is_acceptor);
    assert!(!DFANode::new(set(&[]), &g).is_acceptor);
    assert_eq!(ids(&DFANode::new(set(&[2, 1]), &g).nodes), vec![1, 2]);
}

#[test]
fn registry_holds_one_state_for_each_subset() {
    let g = graph(0, &[], &[2]);
    let mut registry: Vec<DFANode> = Vec::new();
    let first = new_dfa_node(set(&[0, 1]), &g, &mut registry);
    assert_eq!(registry.len(), 1);
    let second = new_dfa_node(set(&[2]), &g, &mut registry);
    assert_eq!(registry.len(), 2);
    let again = new_dfa_node(set(&[1, 0]), &g, &mut registry);
    assert_eq!(registry.len(), 2);
    assert!(again.equals(&first));
    assert!(!again.equals(&second));
    assert!(second.is_acceptor);
    assert_eq!(registry, vec![state(&[0, 1], false), state(&[2], true)]);
}

#[test]
fn determinize_of_a_small_graph() {
    let g = graph(
        0,
        &[edge(Some('a'), 0, 0), edge(Some('a'), 0, 1), edge(Some('b'), 1, 2)],
        &[2],
    );
    let dfa = determinize(&g);
    let s0 = state(&[0], false);
    let s01 = state(&[0, 1], false);
    let s2 = state(&[2], true);
    assert_eq!(dfa.start, s0);
    assert_eq!(
        dfa.edges,
        vec![transition('a', &s0, &s01), transition('a', &s01, &s01), transition('b', &s01, &s2)]
    );
    assert!(dfa.is_deterministic());
}

#[test]
fn determinize_makes_no_transition_where_no_edge_leaves() {
    let g = graph(0, &[edge(Some('a'), 0, 1)], &[1]);
    let dfa = determinize(&g);
    assert_eq!(dfa.edges.len(), 1);
    assert_eq!(dfa.edges[0], transition('a', &state(&[0], false), &state(&[1], true)));
}

#[test]
fn determinize_does_not_follow_epsilon_edges() {
    let g = graph(0, &[edge(None, 0, 1), edge(Some('a'), 1, 2)], &[2]);
    assert_eq!(determinize(&g).edges.len(), 0);
    let dfa = build_dfa(&g);
    assert_eq!(dfa.edges, vec![transition('a', &state(&[0], false), &state(&[2], true))]);
}

#[test]
fn determinism_check_tells_two_targets_apart() {
    let s0 = state(&[0], false);
    let s1 = state(&[1], true);
    let s2 = state(&[2], false);
    let mut dfa = DFA::new(s0.clone());
    assert!(dfa.is_deterministic());
    dfa.edges.push(transition('a', &s0, &s1));
    dfa.edges.push(transition('b', &s0, &s2));
    dfa.edges.push(transition('a', &s0, &s1));
    assert!(dfa.is_deterministic());
    dfa.edges.push(transition('a', &s0, &s2));
    assert!(!dfa.is_deterministic());
}

#[test]
fn engine_runs_a_table_built_by_hand() {
    let s0 = state(&[0], false);
    let s1 = state(&[1], true);
    let mut dfa = DFA::new(s0.clone());
    dfa.edges.push(transition('a', &s0, &s1));
    dfa.edges.push(transition('b', &s1, &s0));
    dfa.edges.push(transition('a', &s0, &s1));
    assert!(dfa.is_deterministic());
    let engine = Engine::new(dfa);
    assert!(engine.match_string("a"));
    assert!(engine.match_string("aba"));
    assert!(!engine.match_string(""));
    assert!(!engine.match_string("ab"));
    assert!(!engine.match_string("aa"));
    assert!(!engine.match_string("c"));
}

#[test]
fn engine_tells_states_apart_by_acceptance_too() {
    let plain = state(&[0], false);
    let accepting = state(&[0], true);
    let mut dfa = DFA::new(plain.clone());
    dfa.edges.push(transition('a', &plain, &accepting));
    dfa.edges.push(transition('a', &accepting, &plain));
    let engine = Engine::new(dfa);
    assert!(engine.match_string("a"));
    assert!(!engine.match_string("aa"));
    assert!(engine.match_string("aaa"));
}

#[test]
fn engine_without_transitions_looks_at_the_start_state() {
    assert!(Engine::new(DFA::new(state(&[0], true))).match_string(""));
    assert!(!Engine::new(DFA::new(state(&[0], true))).match_string("a"));
    assert!(!Engine::new(DFA::new(state(&[0], false))).match_string(""));
}

#[test]
fn traverse_lists_the_edges_that_can_be_reached() {
    let g = graph(
        0,
        &[edge(Some('a'), 0, 1), edge(None, 1, 0), edge(Some('b'), 1, 2), edge(Some('c'), 5, 6)],
        &[2],
    );
    assert_eq!(
        g.traverse(node(0)),
        vec![edge(None, 1, 0), edge(Some('a'), 0, 1), edge(Some('b'), 1, 2)]
    );
    assert_eq!(g.traverse(node(5)), vec![edge(Some('c'), 5, 6)]);
    assert_eq!(g.traverse(node(2)), Vec::<Edge>::new());
}

#[test]
fn drawing_of_a_graph() {
    let g = graph(0, &[edge(Some('a'), 0, 1), edge(None, 1, 0), edge(Some('c'), 5, 6)], &[1, 6]);
    assert_eq!(
        g.dotty_print(),
        vec![
            GraphLine::Bold(node(1)),
            GraphLine::Bold(node(6)),
            GraphLine::Arrow(edge(None, 1, 0)),
            GraphLine::Arrow(edge(Some('a'), 0, 1)),
        ]
    );
}

#[test]
fn drawing_of_an_automaton() {
    let s0 = state(&[0], false);
    let s12 = state(&[1, 2], true);
    let mut dfa = DFA::new(s0.clone());
    dfa.edges.push(transition('a', &s0, &s12));
    dfa.edges.push(transition('b', &s12, &s12));
    dfa.edges.push(transition('c', &s12, &s0));
    assert_eq!(s12.pretty_name(), vec![1, 2]);
    assert_eq!(
        dfa.dotty_print(),
        vec![
            DfaLine::Arrow(vec![0], vec![1, 2], 'a'),
            DfaLine::Bold(vec![1, 2]),
            DfaLine::Arrow(vec![1, 2], vec![1, 2], 'b'),
            DfaLine::Bold(vec![1, 2]),
            DfaLine::Bold(vec![1, 2]),
            DfaLine::Arrow(vec![1, 2], vec![0], 'c'),
            DfaLine::Bold(vec![1, 2]),
        ]
    );
}

#[test]
fn sets_of_nodes_are_ordered_by_their_first_difference() {
    assert!(set(&[0]).before(&set(&[0, 1])));
    assert!(!set(&[0, 1]).before(&set(&[0])));
    assert!(set(&[0, 5]).before(&set(&[1])));
    assert!(set(&[]).before(&set(&[0])));
    assert!(!set(&[3]).before(&set(&[3])));
    assert!(!set(&[]).before(&set(&[])));
}

#[test]
fn states_and_transitions_are_ordered() {
    let s0 = state(&[0], false);
    let s0_accepting = state(&[0], true);
    let s1 = state(&[1], false);
    assert!(s0.before(&s0_accepting));
    assert!(!s0_accepting.before(&s0));
    assert!(s0_accepting.before(&s1));
    assert!(!s0.before(&s0));
    assert!(transition('a', &s1, &s1).before(&transition('b', &s0, &s0)));
    assert!(transition('a', &s0, &s1).before(&transition('a', &s1, &s0)));
    assert!(transition('a', &s0, &s0).before(&transition('a', &s0, &s1)));
    assert!(!transition('a', &s0, &s1).before(&transition('a', &s0, &s1)));
}

#[test]
fn automaton_keeps_its_transitions_in_order_and_once() {
    let s0 = state(&[0], false);
    let s1 = state(&[1], true);
    let mut dfa = DFA::new(s0.clone());
    dfa.add_edge(transition('b', &s0, &s1));
    dfa.add_edge(transition('a', &s1, &s0));
    dfa.add_edge(transition('a', &s0, &s1));
    dfa.add_edge(transition('b', &s0, &s1));
    assert_eq!(
        dfa.edges,
        vec![transition('a', &s0, &s1), transition('a', &s1, &s0), transition('b', &s0, &s1)]
    );
}

#[test]
fn determinize_lists_transitions_by_character_then_source() {
    let g = graph(
        0,
        &[edge(Some('b'), 0, 1), edge(Some('a'), 1, 0), edge(Some('a'), 0, 0), edge(Some('b'), 1, 1)],
        &[1],
    );
    let dfa = determinize(&g);
    let s0 = state(&[0], false);
    let s1 = state(&[1], true);
    assert_eq!(
        dfa.edges,
        vec![
            transition('a', &s0, &s0),
            transition('a', &s1, &s0),
            transition('b', &s0, &s1),
            transition('b', &s1, &s1),
        ]
    );
}
