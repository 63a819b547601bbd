use regex_automaton::expr::RegExpr;
use regex_automaton::parser::parse;
use regex_automaton::parser::reversed;
use regex_automaton::parser::ParseError;
use regex_automaton::parser::ParseFault;
use regex_automaton::text::char_at;
use regex_automaton::text::chars_of;

fn ch(c: char) -> RegExpr {
    RegExpr::Character(c)
}

fn star(inner: RegExpr) -> RegExpr {
    RegExpr::Repetition(Box::new(inner))
}

fn either(lhs: RegExpr, rhs: RegExpr) -> RegExpr {
    RegExpr::Branch(Box::new(lhs), Box::new(rhs))
}

fn seq(items: Vec<RegExpr>) -> RegExpr {
    RegExpr::Sequence(items)
}

#[test]
fn parse_single_character() {
    assert_eq!(parse("a"), Ok(ch('a')));
}

#[test]
fn parse_juxtaposition_is_a_sequence_in_reading_order() {
    assert_eq!(parse("ab"), Ok(seq(vec![ch('a'), ch('b')])));
    assert_eq!(parse("abc"), Ok(seq(vec![ch('a'), ch('b'), ch('c')])));
}

#[test]
fn parse_branch_keeps_the_left_side_bare() {
    assert_eq!(parse("a|b"), Ok(either(ch('a'), seq(vec![ch('b')]))));
    assert_eq!(
        parse("a|b|c"),
        Ok(either(either(ch('a'), seq(vec![ch('b')])), seq(vec![ch('c')])))
    );
}

#[test]
fn parse_star_repeats_what_stands_to_its_left() {
    assert_eq!(parse("a*"), Ok(star(ch('a'))));
    assert_eq!(parse("ab*"), Ok(star(seq(vec![ch('a'), ch('b')]))));
    assert_eq!(parse("a*b"), Ok(seq(vec![star(ch('a')), ch('b')])));
    assert_eq!(parse("a**"), Ok(star(star(ch('a')))));
}

#[test]
fn parse_star_stops_at_a_bar() {
    assert_eq!(parse("a|b*"), Ok(either(ch('a'), star(seq(vec![ch('b')])))));
}

#[test]
fn parse_group() {
    assert_eq!(parse("(a)"), Ok(ch('a')));
    assert_eq!(parse("(ab)c"), Ok(seq(vec![ch('a'), ch('b'), ch('c')])));
    assert_eq!(
        parse("(a|b)*c"),
        Ok(seq(vec![star(either(ch('a'), seq(vec![ch('b')]))), ch('c')]))
    );
    assert_eq!(parse("((a))"), Ok(ch('a')));
    assert_eq!(parse("(a(b))"), Ok(seq(vec![ch('a'), ch('b')])));
}

#[test]
fn parse_set_lists_its_characters_from_right_to_left() {
    assert_eq!(parse("[abc]"), Ok(RegExpr::Range(vec!['c', 'b', 'a'])));
    assert_eq!(parse("[]"), Ok(RegExpr::Range(vec![])));
    assert_eq!(parse("[*|()]"), Ok(RegExpr::Range(vec![')', '(', '|', '*'])));
    assert_eq!(
        parse("x[ab]"),
        Ok(seq(vec![ch('x'), RegExpr::Range(vec!['b', 'a'])]))
    );
}

#[test]
fn parse_empty_right_side_of_a_bar() {
    assert_eq!(parse("a|"), Ok(either(ch('a'), seq(vec![]))));
}

#[test]
fn parse_unclosed_openers_stand_for_themselves() {
    assert_eq!(parse("(a"), Ok(seq(vec![ch('('), ch('a')])));
    assert_eq!(parse("[a"), Ok(seq(vec![ch('['), ch('a')])));
}

#[test]
fn parse_refuses_the_empty_pattern() {
    assert_eq!(parse(""), Err(ParseError(ParseFault::MissingExpression)));
}

#[test]
fn parse_refuses_an_empty_left_side() {
    assert_eq!(parse("|a"), Err(ParseError(ParseFault::MissingExpression)));
    assert_eq!(parse("*"), Err(ParseError(ParseFault::MissingExpression)));
    assert_eq!(parse("()"), Err(ParseError(ParseFault::MissingExpression)));
    assert_eq!(parse("(|a)"), Err(ParseError(ParseFault::MissingExpression)));
}

#[test]
fn parse_refuses_a_set_that_is_not_opened() {
    assert_eq!(parse("a]"), Err(ParseError(ParseFault::UnopenedSet)));
    assert_eq!(parse("]"), Err(ParseError(ParseFault::UnopenedSet)));
}

#[test]
fn parse_refuses_a_group_that_is_not_opened() {
    assert_eq!(parse("a)"), Err(ParseError(ParseFault::UnopenedGroup)));
    assert_eq!(parse("(a))"), Err(ParseError(ParseFault::UnopenedGroup)));
}

#[test]
fn concatenated_extends_a_sequence() {
    assert_eq!(
        RegExpr::concatenated(seq(vec![ch('a'), ch('b')]), ch('c')),
        seq(vec![ch('a'), ch('b'), ch('c')])
    );
    assert_eq!(RegExpr::concatenated(seq(vec![]), ch('c')), seq(vec![ch('c')]));
}

#[test]
fn concatenated_starts_a_sequence() {
    assert_eq!(RegExpr::concatenated(ch('a'), ch('b')), seq(vec![ch('a'), ch('b')]));
    assert_eq!(
        RegExpr::concatenated(star(ch('a')), seq(vec![ch('b')])),
        seq(vec![star(ch('a')), seq(vec![ch('b')])])
    );
}

#[test]
fn chars_of_keeps_the_order() {
    assert_eq!(chars_of("aé😀"), vec!['a', 'é', '😀']);
    assert_eq!(chars_of(""), Vec::<char>::new());
}

#[test]
fn char_at_reads_one_position() {
    assert_eq!(char_at(&vec!['a', 'é', 'c'], 1), 'é');
}

#[test]
fn reversed_turns_the_order_round() {
    assert_eq!(reversed(&vec!['a', 'b', 'c']), vec!['c', 'b', 'a']);
    assert_eq!(reversed(&vec![]), Vec::<char>::new());
}

#[test]
fn isolated_loops_are_recognized() {
    assert!(parse("(a|b)*c").unwrap().has_isolated_loops());
    assert!(parse("a*b").unwrap().has_isolated_loops());
    assert!(parse("ab*").unwrap().has_isolated_loops());
    assert!(parse("a**").unwrap().has_isolated_loops());
    assert!(parse("(a*)*").unwrap().has_isolated_loops());
    assert!(!parse("a*b*").unwrap().has_isolated_loops());
    assert!(star(ch('a')).is_repetition());
    assert!(seq(vec![star(ch('a'))]).is_repetition());
    assert!(!seq(vec![star(ch('a')), ch('b')]).is_repetition());
    assert!(!ch('a').is_repetition());
    assert!(ch('a').has_fresh_start());
    assert!(ch('a').has_fresh_end());
    assert!(!star(ch('a')).has_fresh_start());
    assert!(!star(ch('a')).has_fresh_end());
    assert!(seq(vec![ch('a'), star(ch('b'))]).has_fresh_start());
    assert!(!seq(vec![ch('a'), star(ch('b'))]).has_fresh_end());
    assert!(seq(vec![]).has_fresh_start());
    assert!(seq(vec![]).has_fresh_end());
}
