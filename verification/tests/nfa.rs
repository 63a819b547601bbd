use regex_automaton::expr::RegExpr;
use regex_automaton::graph::Edge;
use regex_automaton::graph::EdgeSet;
use regex_automaton::graph::Graph;
use regex_automaton::nfa::build_nfa;
use regex_automaton::node::Node;
use regex_automaton::node::NodeAllocator;
use regex_automaton::node::NodeSet;

fn node(id: usize) -> Node {
    Node { id }
}

fn edge(condition: Option<char>, from: usize, to: usize) -> Edge {
    Edge { condition, from: node(from), to: node(to) }
}

fn ids(set: &NodeSet) -> Vec<usize> {
    set.to_vec().iter().map(|n| n.id).collect()
}

fn built(tree: &RegExpr) -> (Graph, usize) {
    let mut alloc = NodeAllocator::new();
    let graph = build_nfa(tree, &mut alloc);
    (graph, alloc.len())
}

#[test]
fn allocator_issues_identities_in_order() {
    let mut alloc = NodeAllocator::new();
    assert_eq!(alloc.len(), 0);
    assert_eq!(Node::new(&mut alloc), node(0));
    assert_eq!(Node::new(&mut alloc), node(1));
    assert_eq!(Node::new(&mut alloc), node(2));
    assert_eq!(alloc.len(), 3);
    assert_eq!(alloc.nodes, vec![node(0), node(1), node(2)]);
}

#[test]
fn node_set_is_kept_in_rising_order_without_repeats() {
    let mut set = NodeSet::new();
    assert!(set.insert(node(5)));
    assert!(set.insert(node(1)));
    assert!(set.insert(node(3)));
    assert!(!set.insert(node(5)));
    assert_eq!(ids(&set), vec![1, 3, 5]);
    assert_eq!(set.len(), 3);
    assert_eq!(set.get(1), node(3));
    assert!(set.contains(node(3)));
    assert!(!set.contains(node(2)));
}

#[test]
fn node_sets_compare_by_their_members() {
    let mut a = NodeSet::new();
    a.insert(node(2));
    a.insert(node(1));
    let mut b = NodeSet::new();
    b.insert(node(1));
    b.insert(node(2));
    assert!(a.equals(&b));
    assert!(a.equals(&a.clone()));
    b.insert(node(3));
    assert!(!a.equals(&b));
    let mut c = NodeSet::new();
    c.insert(node(1));
    c.insert(node(4));
    assert!(!a.equals(&c));
    assert!(a.intersects(&c));
    let mut d = NodeSet::new();
    d.insert(node(7));
    assert!(!a.intersects(&d));
    assert!(!a.intersects(&NodeSet::new()));
}

#[test]
fn edge_set_is_ordered_by_condition_then_source_then_target() {
    let mut set = EdgeSet::new();
    assert!(set.insert(edge(Some('b'), 0, 1)));
    assert!(set.insert(edge(Some('a'), 2, 0)));
    assert!(set.insert(edge(None, 9, 9)));
    assert!(set.insert(edge(Some('a'), 1, 5)));
    assert!(set.insert(edge(Some('a'), 1, 2)));
    assert!(!set.insert(edge(Some('a'), 1, 5)));
    assert_eq!(
        set.to_vec(),
        vec![
            edge(None, 9, 9),
            edge(Some('a'), 1, 2),
            edge(Some('a'), 1, 5),
            edge(Some('a'), 2, 0),
            edge(Some('b'), 0, 1),
        ]
    );
    assert_eq!(set.len(), 5);
    assert_eq!(set.get(0), edge(None, 9, 9));
    assert!(set.contains(edge(Some('a'), 2, 0)));
    assert!(!set.contains(edge(Some('a'), 0, 2)));
    assert!(edge(None, 9, 9).before(&edge(Some('a'), 0, 0)));
    assert!(!edge(Some('a'), 0, 0).before(&edge(Some('a'), 0, 0)));
    assert!(edge(Some('a'), 0, 1).before(&edge(Some('a'), 0, 2)));
}

#[test]
fn edge_set_helpers_add_what_they_name() {
    let mut sources = NodeSet::new();
    sources.insert(node(1));
    sources.insert(node(2));
    let mut set = EdgeSet::new();
    set.link_to(&sources, node(7));
    set.link_from(node(0), &sources);
    set.link_by(&vec!['x', 'y', 'x'], node(3), node(4));
    let mut other = EdgeSet::new();
    other.insert(edge(Some('z'), 8, 9));
    other.insert(edge(None, 1, 7));
    set.extend(&other);
    assert_eq!(
        set.to_vec(),
        vec![
            edge(None, 0, 1),
            edge(None, 0, 2),
            edge(None, 1, 7),
            edge(None, 2, 7),
            edge(Some('x'), 3, 4),
            edge(Some('y'), 3, 4),
            edge(Some('z'), 8, 9),
        ]
    );
}

#[test]
fn graph_starts_empty_and_takes_edges_once() {
    let mut graph = Graph::new(node(4));
    assert_eq!(graph.start, node(4));
    assert_eq!(graph.edges.len(), 0);
    assert_eq!(graph.acceptors.len(), 0);
    graph.add_edge(Some('a'), node(4), node(5));
    graph.add_edge(Some('a'), node(4), node(5));
    graph.add_edge(None, node(5), node(4));
    assert_eq!(graph.edges.to_vec(), vec![edge(None, 5, 4), edge(Some('a'), 4, 5)]);
}

#[test]
fn build_character() {
    let (graph, used) = built(&RegExpr::Character('a'));
    assert_eq!(used, 2);
    assert_eq!(graph.start, node(0));
    assert_eq!(graph.edges.to_vec(), vec![edge(Some('a'), 0, 1)]);
    assert_eq!(ids(&graph.acceptors), vec![1]);
}

#[test]
fn build_range_has_one_edge_for_each_distinct_character() {
    let (graph, used) = built(&RegExpr::Range(vec!['b', 'a', 'b']));
    assert_eq!(used, 2);
    assert_eq!(graph.start, node(0));
    assert_eq!(graph.edges.to_vec(), vec![edge(Some('a'), 0, 1), edge(Some('b'), 0, 1)]);
    assert_eq!(ids(&graph.acceptors), vec![1]);
}

#[test]
fn build_empty_sequence_is_one_node() {
    let (graph, used) = built(&RegExpr::Sequence(vec![]));
    assert_eq!(used, 1);
    assert_eq!(graph.start, node(0));
    assert_eq!(graph.edges.len(), 0);
    assert_eq!(ids(&graph.acceptors), vec![0]);
}

#[test]
fn build_sequence_chains_its_items() {
    let tree = RegExpr::Sequence(vec![
        RegExpr::Character('a'),
        RegExpr::Character('b'),
        RegExpr::Character('c'),
    ]);
    let (graph, used) = built(&tree);
    assert_eq!(used, 6);
    assert_eq!(graph.start, node(0));
    assert_eq!(
        graph.edges.to_vec(),
        vec![
            edge(None, 1, 2),
            edge(None, 3, 4),
            edge(Some('a'), 0, 1),
            edge(Some('b'), 2, 3),
            edge(Some('c'), 4, 5),
        ]
    );
    assert_eq!(ids(&graph.acceptors), vec![5]);
}

#[test]
fn build_branch_wraps_both_sides() {
    let tree = RegExpr::Branch(
        Box::new(RegExpr::Character('a')),
        Box::new(RegExpr::Character('b')),
    );
    let (graph, used) = built(&tree);
    assert_eq!(used, 6);
    assert_eq!(graph.start, node(4));
    assert_eq!(
        graph.edges.to_vec(),
        vec![
            edge(None, 1, 5),
            edge(None, 3, 5),
            edge(None, 4, 0),
            edge(None, 4, 2),
            edge(Some('a'), 0, 1),
            edge(Some('b'), 2, 3),
        ]
    );
    assert_eq!(ids(&graph.acceptors), vec![5]);
}

#[test]
fn build_repetition_loops_between_start_and_acceptors() {
    let tree = RegExpr::Repetition(Box::new(RegExpr::Character('a')));
    let (graph, used) = built(&tree);
    assert_eq!(used, 2);
    assert_eq!(graph.start, node(0));
    assert_eq!(
        graph.edges.to_vec(),
        vec![edge(None, 0, 1), edge(None, 1, 0), edge(Some('a'), 0, 1)]
    );
    assert_eq!(ids(&graph.acceptors), vec![0, 1]);
}

#[test]
fn build_takes_its_nodes_behind_those_issued_before() {
    let mut alloc = NodeAllocator::new();
    let first = build_nfa(&RegExpr::Character('a'), &mut alloc);
    let second = build_nfa(&RegExpr::Character('b'), &mut alloc);
    assert_eq!(first.edges.to_vec(), vec![edge(Some('a'), 0, 1)]);
    assert_eq!(second.start, node(2));
    assert_eq!(second.edges.to_vec(), vec![edge(Some('b'), 2, 3)]);
    assert_eq!(ids(&second.acceptors), vec![3]);
    assert_eq!(alloc.len(), 4);
    assert_eq!(first.edges.to_vec(), vec![edge(Some('a'), 0, 1)]);
}
