use regex_automaton::expr::RegExpr;
use regex_automaton::parser::parse;
use regex_automaton::pipeline::compile;

fn character(c: char) -> RegExpr {
    RegExpr::Character(c)
}

fn check(pattern: &str, accepted: &[&str], rejected: &[&str]) {
    let tree = parse(pattern).unwrap();
    let engine = compile(&tree);
    for s in accepted {
        assert!(engine.match_string(s), "{:?} should accept {:?}", pattern, s);
    }
    for s in rejected {
        assert!(!engine.match_string(s), "{:?} should reject {:?}", pattern, s);
    }
}

#[test]
fn single_character() {
    let engine = compile(&character('a'));
    assert!(engine.match_string("a"));
    assert!(!engine.match_string(""));
    assert!(!engine.match_string("aa"));
}

#[test]
fn branch_of_two_characters() {
    let tree = RegExpr::Branch(Box::new(character('a')), Box::new(character('b')));
    let engine = compile(&tree);
    assert!(engine.match_string("a"));
    assert!(engine.match_string("b"));
    assert!(!engine.match_string("ab"));
    assert!(!engine.match_string(""));
}

#[test]
fn repetition_of_a_character() {
    let tree = RegExpr::Repetition(Box::new(character('a')));
    let engine = compile(&tree);
    assert!(engine.match_string(""));
    assert!(engine.match_string("a"));
    assert!(engine.match_string("aaaa"));
    assert!(!engine.match_string("b"));
    assert!(!engine.match_string("ab"));
}

#[test]
fn repeated_branch_then_character() {
    let branch = RegExpr::Branch(Box::new(character('a')), Box::new(character('b')));
    let tree = RegExpr::Sequence(vec![RegExpr::Repetition(Box::new(branch)), character('c')]);
    let engine = compile(&tree);
    assert!(engine.match_string("c"));
    assert!(engine.match_string("aabbc"));
    assert!(!engine.match_string("aab"));
    assert!(!engine.match_string("cc"));
}

#[test]
fn range_of_three_characters() {
    let tree = RegExpr::Range(vec!['a', 'b', 'c']);
    let engine = compile(&tree);
    assert!(engine.match_string("a"));
    assert!(engine.match_string("b"));
    assert!(engine.match_string("c"));
    assert!(!engine.match_string("d"));
    assert!(!engine.match_string(""));
}

#[test]
fn pattern_a() {
    check("a", &["a"], &["", "aa"]);
}

#[test]
fn pattern_a_or_b() {
    check("a|b", &["a", "b"], &["ab", ""]);
}

#[test]
fn pattern_a_star() {
    check("a*", &["", "a", "aaaa"], &["b", "ab"]);
}

#[test]
fn pattern_group_star_then_c() {
    check("(a|b)*c", &["c", "aabbc"], &["aab", "cc"]);
}

#[test]
fn pattern_star_of_star() {
    check("a**", &["", "a", "aaa"], &["b", "ab"]);
}

#[test]
fn pattern_set() {
    check("[abc]", &["a", "b", "c"], &["d", ""]);
}

#[test]
fn pattern_of_the_demonstration() {
    let tree = parse("(aa|b)*").unwrap();
    assert!(tree.has_isolated_loops());
    let engine = compile(&tree);
    assert!(engine.match_string("aabaabaabbbaabbaabaabbaabbaabaabaabaa"));
    assert!(engine.match_string(""));
    assert!(!engine.match_string("aba"));
    assert!(!engine.match_string("a"));
}

#[test]
fn empty_sequence_accepts_only_the_empty_string() {
    let engine = compile(&RegExpr::Sequence(vec![]));
    assert!(engine.match_string(""));
    assert!(!engine.match_string("a"));
}

#[test]
fn empty_range_accepts_nothing() {
    let engine = compile(&RegExpr::Range(vec![]));
    assert!(!engine.match_string(""));
    assert!(!engine.match_string("a"));
}

#[test]
fn match_is_anchored_at_both_ends() {
    let tree = RegExpr::Sequence(vec![character('a'), character('b')]);
    let engine = compile(&tree);
    assert!(engine.match_string("ab"));
    assert!(!engine.match_string("abab"));
    assert!(!engine.match_string("xab"));
    assert!(!engine.match_string("abx"));
    assert!(!engine.match_string("a"));
}

#[test]
fn calls_are_independent() {
    let engine = compile(&RegExpr::Repetition(Box::new(character('a'))));
    assert!(!engine.match_string("ab"));
    assert!(engine.match_string("aa"));
    assert!(!engine.match_string("ab"));
    assert!(engine.match_string("aa"));
}

#[test]
fn characters_beyond_ascii() {
    let tree = RegExpr::Sequence(vec![character('é'), RegExpr::Range(vec!['λ', '😀'])]);
    let engine = compile(&tree);
    assert!(engine.match_string("éλ"));
    assert!(engine.match_string("é😀"));
    assert!(!engine.match_string("eλ"));
    assert!(engine.match_chars(&vec!['é', 'λ']));
}

#[test]
fn shared_loop_nodes_accept_more_than_the_language() {
    // (ab*)*: the inner loop ends where the outer loop ends, so the two
    // share nodes and the graph also accepts a lone "b".
    let inner = RegExpr::Sequence(vec![
        character('a'),
        RegExpr::Repetition(Box::new(character('b'))),
    ]);
    let tree = RegExpr::Repetition(Box::new(inner));
    assert!(!tree.has_isolated_loops());
    let engine = compile(&tree);
    assert!(engine.match_string(""));
    assert!(engine.match_string("abb"));
    assert!(engine.match_string("abab"));
    assert!(engine.match_string("b"));
}
