use regex_automaton::dfa::DFA;
use regex_automaton::dfa::DFANode;
use regex_automaton::epsilon::eliminate;
use regex_automaton::expr::RegExpr;
use regex_automaton::graph::Graph;
use regex_automaton::nfa::build_nfa;
use regex_automaton::node::NodeAllocator;
use regex_automaton::pipeline::build_dfa;
use regex_automaton::pipeline::compile;
use regex_automaton::subset::determinize;

/// Membership in the language of a tree, by trying every split.
fn belongs(tree: &RegExpr, s: &[char]) -> bool {
    match tree {
        RegExpr::Character(c) => s.len() == 1 && s[0] == *c,
        RegExpr::Range(set) => s.len() == 1 && set.contains(&s[0]),
        RegExpr::Repetition(inner) => {
            s.is_empty()
                || (1..=s.len()).any(|k| belongs(inner, &s[..k]) && belongs(tree, &s[k..]))
        }
        RegExpr::Branch(lhs, rhs) => belongs(lhs, s) || belongs(rhs, s),
        RegExpr::Sequence(items) => in_order(items, s),
    }
}

fn in_order(items: &[RegExpr], s: &[char]) -> bool {
    match items.split_last() {
        None => s.is_empty(),
        Some((last, before)) => {
            (0..=s.len()).any(|k| in_order(before, &s[..k]) && belongs(last, &s[k..]))
        }
    }
}

fn copy(tree: &RegExpr) -> RegExpr {
    match tree {
        RegExpr::Character(c) => RegExpr::Character(*c),
        RegExpr::Range(set) => RegExpr::Range(set.clone()),
        RegExpr::Repetition(inner) => RegExpr::Repetition(Box::new(copy(inner))),
        RegExpr::Branch(lhs, rhs) => RegExpr::Branch(Box::new(copy(lhs)), Box::new(copy(rhs))),
        RegExpr::Sequence(items) => RegExpr::Sequence(items.iter().map(copy).collect()),
    }
}

/// All trees of the given depth over the characters `a` and `b`.
fn trees(depth: usize) -> Vec<RegExpr> {
    let mut all = vec![
        RegExpr::Character('a'),
        RegExpr::Character('b'),
        RegExpr::Range(vec!['a', 'b']),
        RegExpr::Sequence(vec![]),
    ];
    if depth == 0 {
        return all;
    }
    let smaller = trees(depth - 1);
    for x in &smaller {
        all.push(RegExpr::Repetition(Box::new(copy(x))));
        all.push(RegExpr::Sequence(vec![copy(x)]));
        for y in &smaller {
            all.push(RegExpr::Branch(Box::new(copy(x)), Box::new(copy(y))));
            all.push(RegExpr::Sequence(vec![copy(x), copy(y)]));
        }
    }
    all
}

/// All strings over `a` and `b` of at most the given length.
fn strings(length: usize) -> Vec<String> {
    let mut all = vec![String::new()];
    let mut last = vec![String::new()];
    for _ in 0..length {
        let mut next = Vec::new();
        for s in &last {
            next.push(format!("{}a", s));
            next.push(format!("{}b", s));
        }
        all.extend(next.iter().cloned());
        last = next;
    }
    all
}

#[test]
fn engine_agrees_with_the_language_where_loops_are_isolated() {
    let inputs = strings(4);
    let mut checked = 0;
    for tree in trees(1) {
        if !tree.has_isolated_loops() {
            continue;
        }
        let engine = compile(&tree);
        for s in &inputs {
            let chars: Vec<char> = s.chars().collect();
            assert_eq!(engine.match_string(s), belongs(&tree, &chars), "{:?} on {:?}", tree, s);
        }
        checked += 1;
    }
    assert!(checked > 20);
}

#[test]
fn engine_agrees_with_the_language_on_nested_trees() {
    let inputs = strings(3);
    let mut checked = 0;
    for (i, tree) in trees(2).into_iter().enumerate() {
        if i % 7 != 0 || !tree.has_isolated_loops() {
            continue;
        }
        let engine = compile(&tree);
        for s in &inputs {
            let chars: Vec<char> = s.chars().collect();
            assert_eq!(engine.match_string(s), belongs(&tree, &chars), "{:?} on {:?}", tree, s);
        }
        checked += 1;
    }
    assert!(checked > 20);
}

#[test]
fn engine_accepts_the_whole_language_of_every_tree() {
    let inputs = strings(3);
    for (i, tree) in trees(2).into_iter().enumerate() {
        if i % 5 != 0 {
            continue;
        }
        let engine = compile(&tree);
        for s in &inputs {
            let chars: Vec<char> = s.chars().collect();
            if belongs(&tree, &chars) {
                assert!(engine.match_string(s), "{:?} on {:?}", tree, s);
            }
        }
    }
}

fn same_state(a: &DFANode, b: &DFANode) -> bool {
    a.nodes == b.nodes && a.is_acceptor == b.is_acceptor
}

fn states_of(dfa: &DFA) -> Vec<&DFANode> {
    let mut all = vec![&dfa.start];
    for edge in &dfa.edges {
        all.push(&edge.from);
        all.push(&edge.to);
    }
    all
}

fn graph_of(tree: &RegExpr) -> Graph {
    let mut alloc = NodeAllocator::new();
    build_nfa(tree, &mut alloc)
}

#[test]
fn at_most_one_transition_per_state_and_character() {
    for tree in trees(1) {
        let dfa = build_dfa(&graph_of(&tree));
        assert!(dfa.is_deterministic());
        for (i, one) in dfa.edges.iter().enumerate() {
            for other in &dfa.edges[i + 1..] {
                assert!(
                    !(same_state(&one.from, &other.from) && one.condition == other.condition),
                    "{:?}",
                    tree
                );
            }
        }
    }
}

#[test]
fn equal_subsets_are_one_state() {
    for tree in trees(1) {
        let dfa = build_dfa(&graph_of(&tree));
        let states = states_of(&dfa);
        for a in &states {
            for b in &states {
                if a.nodes == b.nodes {
                    assert_eq!(a.is_acceptor, b.is_acceptor);
                    assert_eq!(a.nodes.to_vec(), b.nodes.to_vec());
                }
            }
        }
    }
}

#[test]
fn eliminate_changes_nothing_in_an_epsilon_free_graph() {
    for tree in trees(1) {
        let once = eliminate(&graph_of(&tree));
        let twice = eliminate(&once);
        assert_eq!(once.start, twice.start);
        assert_eq!(once.edges.to_vec(), twice.edges.to_vec());
        assert_eq!(once.acceptors.to_vec(), twice.acceptors.to_vec());
        assert!(once.edges.to_vec().iter().all(|e| e.condition.is_some()));
    }
}

#[test]
fn construction_ends_on_loops_within_loops() {
    let mut tree = RegExpr::Character('a');
    for _ in 0..6 {
        tree = RegExpr::Repetition(Box::new(RegExpr::Branch(
            Box::new(tree),
            Box::new(RegExpr::Character('b')),
        )));
    }
    let graph = graph_of(&tree);
    let plain = eliminate(&graph);
    let dfa = determinize(&plain);
    assert!(dfa.is_deterministic());
    let engine = compile(&tree);
    assert!(engine.match_string(""));
    assert!(engine.match_string("abba"));
    assert!(!engine.match_string("abca"));
}

#[test]
fn construction_ends_on_deep_branches_and_sequences() {
    let mut tree = RegExpr::Character('a');
    for depth in 0..40 {
        tree = if depth % 2 == 0 {
            RegExpr::Sequence(vec![tree, RegExpr::Character('b')])
        } else {
            RegExpr::Branch(Box::new(tree), Box::new(RegExpr::Character('c')))
        };
    }
    assert!(tree.has_isolated_loops());
    let engine = compile(&tree);
    assert!(engine.match_string("c"));
    assert!(engine.match_string("cb"));
    assert!(!engine.match_string("bc"));
    let all_b: String = std::iter::repeat('b').take(20).collect();
    assert!(engine.match_string(&format!("a{}", all_b)));
    assert!(!engine.match_string(&format!("a{}b", all_b)));
}
