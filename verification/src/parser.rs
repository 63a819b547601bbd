//! The pattern syntax: from text to an expression tree.
//!
//! A pattern is read from its right end to its left end.
//!
//! - `x|y` is a branch of `x` and `y`; `|` binds loosest and reaches to the
//!   ends of the pattern or of the group it stands in.
//! - Items that stand side by side form a sequence.
//! - `*` repeats all of the sequence that stands to its left, up to the
//!   next `|` or the beginning of the group.
//! - `(...)` is a group and `[...]` a set of the listed characters.
//! - Any other character stands for itself, and so do `(` and `[` where
//!   nothing closes them.

use crate::expr::lemma_tree_unfolds;
use crate::expr::lemma_trees_each;
use crate::expr::lemma_trees_unfolds;
use crate::expr::trees;
use crate::expr::RegExpr;
use crate::expr::Tree;
use crate::text::chars_of;
use vstd::prelude::*;

verus! {

/// Why a pattern is refused.
#[derive(Debug, PartialEq, Eq, Structural, Clone, Copy)]
pub enum ParseFault {
    /// The pattern, a group or the left side of a `|` is empty, or nothing
    /// stands to the left of a `*`.
    MissingExpression,
    /// A `]` has no `[` to its left.
    UnopenedSet,
    /// A `)` has no `(` to its left that opens its group.
    UnopenedGroup,
}

/// The refusal of a pattern.
#[derive(Debug, PartialEq, Eq, Structural, Clone, Copy)]
pub struct ParseError(pub ParseFault);

/// A tree that was read, and the position behind what was read for it.
pub struct Parsed {
    pub tree: Tree,
    pub at: nat,
}

/// The position of the first `[` in `text[at..end]`, if there is one.
pub open spec fn set_opening(text: Seq<char>, at: nat, end: nat) -> Option<nat>
    decreases end - at,
{
    if at >= end || end > text.len() {
        None
    } else if text[at as int] == '[' {
        Some(at)
    } else {
        set_opening(text, at + 1, end)
    }
}

/// The position in `text[at..end]` of the `(` that opens the group in
/// which `at` lies, `depth` groups deep, if there is one.
pub open spec fn group_opening(text: Seq<char>, at: nat, end: nat, depth: nat) -> Option<nat>
    decreases end - at,
{
    if at >= end || end > text.len() {
        None
    } else if text[at as int] == '(' {
        if depth == 0 {
            Some(at)
        } else {
            group_opening(text, at + 1, end, (depth - 1) as nat)
        }
    } else if text[at as int] == ')' {
        group_opening(text, at + 1, end, depth + 1)
    } else {
        group_opening(text, at + 1, end, depth)
    }
}

/// The tree of `later` put behind `earlier`: a sequence gets one more
/// item, anything else becomes the first item of a sequence of two.
pub open spec fn joined(earlier: Tree, later: Tree) -> Tree {
    match earlier {
        Tree::Sequence(items) => Tree::Sequence(items.push(later)),
        _ => Tree::Sequence(seq![earlier, later]),
    }
}

/// The set that ends before `at` in the reversed pattern: its characters
/// in the order in which they are read, up to the `[`.
pub open spec fn read_set(text: Seq<char>, at: nat, end: nat) -> Result<Parsed, ParseError> {
    match set_opening(text, at, end) {
        None => Err(ParseError(ParseFault::UnopenedSet)),
        Some(open) => Ok(
            Parsed { tree: Tree::Range(text.subrange(at as int, open as int)), at: open + 1 },
        ),
    }
}

/// One item, read from the reversed pattern `text[at..end]`: a set, a
/// group or a single character.
pub open spec fn read_item(text: Seq<char>, at: nat, end: nat) -> Result<Parsed, ParseError>
    decreases end - at, 0nat,
{
    if at >= end || end > text.len() || text[at as int] == '*' || text[at as int] == '|' {
        Err(ParseError(ParseFault::MissingExpression))
    } else if text[at as int] == ']' {
        read_set(text, at + 1, end)
    } else if text[at as int] == ')' {
        match group_opening(text, at + 1, end, 0) {
            None => Err(ParseError(ParseFault::UnopenedGroup)),
            Some(open) => if at < open < end {
                match read_branch(text, at + 1, open) {
                    Err(fault) => Err(fault),
                    Ok(inner) => Ok(Parsed { tree: inner.tree, at: open + 1 }),
                }
            } else {
                Err(ParseError(ParseFault::UnopenedGroup))
            },
        }
    } else {
        Ok(Parsed { tree: Tree::Character(text[at as int]), at: at + 1 })
    }
}

/// One sequence, read from the reversed pattern `text[at..end]`: up to its
/// end or to the next `|`.
pub open spec fn read_sequence(text: Seq<char>, at: nat, end: nat) -> Result<Parsed, ParseError>
    decreases end - at, 1nat,
{
    if at >= end || end > text.len() {
        Err(ParseError(ParseFault::MissingExpression))
    } else if text[at as int] == '*' {
        match read_sequence(text, at + 1, end) {
            Err(fault) => Err(fault),
            Ok(inner) => Ok(Parsed { tree: Tree::Repetition(Box::new(inner.tree)), at: inner.at }),
        }
    } else if text[at as int] == '|' {
        Ok(Parsed { tree: Tree::Sequence(Seq::empty()), at })
    } else {
        match read_item(text, at, end) {
            Err(fault) => Err(fault),
            Ok(last) => if at < last.at < end {
                match read_sequence(text, last.at, end) {
                    Err(fault) => Err(fault),
                    Ok(before) => Ok(
                        Parsed { tree: joined(before.tree, last.tree), at: before.at },
                    ),
                }
            } else {
                Ok(last)
            },
        }
    }
}

/// One branch, read from the reversed pattern `text[at..end]`: all of it.
pub open spec fn read_branch(text: Seq<char>, at: nat, end: nat) -> Result<Parsed, ParseError>
    decreases end - at, 2nat,
{
    match read_sequence(text, at, end) {
        Err(fault) => Err(fault),
        Ok(right) => if at <= right.at < end && text[right.at as int] == '|' {
            match read_branch(text, right.at + 1, end) {
                Err(fault) => Err(fault),
                Ok(left) => Ok(
                    Parsed {
                        tree: Tree::Branch(Box::new(left.tree), Box::new(right.tree)),
                        at: left.at,
                    },
                ),
            }
        } else {
            Ok(right)
        },
    }
}

/// The tree of a pattern, or why the pattern is refused.
pub open spec fn parsed(pattern: Seq<char>) -> Result<Tree, ParseError> {
    match read_branch(pattern.reverse(), 0, pattern.len()) {
        Err(fault) => Err(fault),
        Ok(whole) => Ok(whole.tree),
    }
}

/// Whether what a function read is what the grammar says.
pub open spec fn agrees(
    got: Result<(RegExpr, usize), ParseError>,
    want: Result<Parsed, ParseError>,
) -> bool {
    match (got, want) {
        (Ok(read), Ok(parsed)) => read.0.tree() == parsed.tree && read.1 == parsed.at,
        (Err(a), Err(b)) => a == b,
        _ => false,
    }
}

/// The first items of a list do not depend on what follows them.
pub proof fn lemma_trees_of_prefix(items: Seq<RegExpr>, more: Seq<RegExpr>, upto: nat)
    requires
        upto <= items.len(),
        items.is_prefix_of(more),
    ensures
        trees(more, upto) == trees(items, upto),
    decreases upto,
{
    if upto > 0 {
        lemma_trees_of_prefix(items, more, (upto - 1) as nat);
        assert(more[upto - 1] == items[upto - 1]);
    }
}

impl RegExpr {
    /// Puts `rhs` behind `lhs`: a sequence gets one more item, anything
    /// else becomes the first item of a new sequence of two.
    pub fn concatenated(lhs: RegExpr, rhs: RegExpr) -> (both: RegExpr)
        ensures
            both.tree() == joined(lhs.tree(), rhs.tree()),
    {
        match lhs {
            RegExpr::Sequence(mut items) => {
                let ghost before = items@;
                items.push(rhs);
                proof {
                    lemma_trees_of_prefix(before, items@, before.len());
                    lemma_trees_unfolds(items@, items@.len());
                }
                RegExpr::Sequence(items)
            },
            this => {
                let mut items: Vec<RegExpr> = Vec::new();
                let ghost first = this;
                items.push(this);
                items.push(rhs);
                proof {
                    lemma_trees_each(items@, 2);
                    assert(items@[0] == first);
                    assert(items@[1] == rhs);
                    assert(trees(items@, 2) =~= seq![first.tree(), rhs.tree()]);
                }
                RegExpr::Sequence(items)
            },
        }
    }
}

/// Reads the set whose `]` was read just before `at`.
fn range(text: &Vec<char>, at: usize, end: usize) -> (read: Result<(RegExpr, usize), ParseError>)
    requires
        at <= end <= text@.len(),
    ensures
        agrees(read, read_set(text@, at as nat, end as nat)),
        read is Ok ==> at < read->Ok_0.1 <= end,
{
    let mut buffer: Vec<char> = Vec::new();
    let mut i: usize = at;
    while i < end
        invariant
            at <= i <= end <= text@.len(),
            set_opening(text@, at as nat, end as nat) == set_opening(text@, i as nat, end as nat),
            buffer@ == text@.subrange(at as int, i as int),
        decreases end - i,
    {
        let c = text[i];
        if c == '[' {
            let set = RegExpr::Range(buffer);
            proof {
                lemma_tree_unfolds(set);
            }
            return Ok((set, i + 1));
        }
        buffer.push(c);
        assert(text@.subrange(at as int, i + 1) =~= text@.subrange(at as int, i as int).push(c));
        i += 1;
    }
    Err(ParseError(ParseFault::UnopenedSet))
}

/// Reads the group whose `)` was read just before `at`.
fn paren(text: &Vec<char>, at: usize, end: usize) -> (read: Result<(RegExpr, usize), ParseError>)
    requires
        at <= end <= text@.len(),
    ensures
        agrees(
            read,
            match group_opening(text@, at as nat, end as nat, 0) {
                None => Err(ParseError(ParseFault::UnopenedGroup)),
                Some(open) => match read_branch(text@, at as nat, open) {
                    Err(fault) => Err(fault),
                    Ok(inner) => Ok(Parsed { tree: inner.tree, at: open + 1 }),
                },
            },
        ),
        match group_opening(text@, at as nat, end as nat, 0) {
            None => true,
            Some(open) => at <= open < end,
        },
        read is Ok ==> at < read->Ok_0.1 <= end,
    decreases end - at, 3nat,
{
    let mut depth: usize = 0;
    let mut i: usize = at;
    while i < end
        invariant
            at <= i <= end <= text@.len(),
            depth <= i - at,
            group_opening(text@, at as nat, end as nat, 0) == group_opening(
                text@,
                i as nat,
                end as nat,
                depth as nat,
            ),
        decreases end - i,
    {
        let c = text[i];
        if c == '(' {
            if depth == 0 {
                return match branch(text, at, i) {
                    Err(fault) => Err(fault),
                    Ok((inner, _)) => Ok((inner, i + 1)),
                };
            }
            depth -= 1;
        } else if c == ')' {
            depth += 1;
        }
        i += 1;
    }
    Err(ParseError(ParseFault::UnopenedGroup))
}

/// Reads one item: a set, a group or a single character.
fn simple_expr(text: &Vec<char>, at: usize, end: usize) -> (read: Result<
    (RegExpr, usize),
    ParseError,
>)
    requires
        at <= end <= text@.len(),
    ensures
        agrees(read, read_item(text@, at as nat, end as nat)),
        read is Ok ==> at < read->Ok_0.1 <= end,
    decreases end - at, 4nat,
{
    if at >= end {
        return Err(ParseError(ParseFault::MissingExpression));
    }
    let c = text[at];
    if c == '*' || c == '|' {
        Err(ParseError(ParseFault::MissingExpression))
    } else if c == ']' {
        range(text, at + 1, end)
    } else if c == ')' {
        paren(text, at + 1, end)
    } else {
        let one = RegExpr::Character(c);
        proof {
            lemma_tree_unfolds(one);
        }
        Ok((one, at + 1))
    }
}

/// Reads one sequence: up to the end or to the next `|`.
fn sequence(text: &Vec<char>, at: usize, end: usize) -> (read: Result<(RegExpr, usize), ParseError>)
    requires
        at <= end <= text@.len(),
    ensures
        agrees(read, read_sequence(text@, at as nat, end as nat)),
        read is Ok ==> at <= read->Ok_0.1 <= end && (read->Ok_0.1 == end || text@[read->Ok_0.1 as int]
            == '|'),
    decreases end - at, 5nat,
{
    if at >= end {
        return Err(ParseError(ParseFault::MissingExpression));
    }
    let c = text[at];
    if c == '*' {
        match sequence(text, at + 1, end) {
            Err(fault) => Err(fault),
            Ok((inner, next)) => {
                let star = RegExpr::Repetition(Box::new(inner));
                proof {
                    lemma_tree_unfolds(star);
                }
                Ok((star, next))
            },
        }
    } else if c == '|' {
        let nothing = RegExpr::Sequence(Vec::new());
        proof {
            lemma_tree_unfolds(nothing);
            lemma_trees_unfolds(Seq::<RegExpr>::empty(), 0);
        }
        Ok((nothing, at))
    } else {
        match simple_expr(text, at, end) {
            Err(fault) => Err(fault),
            Ok((last, next)) => {
                if next < end {
                    match sequence(text, next, end) {
                        Err(fault) => Err(fault),
                        Ok((before, rest)) => Ok((RegExpr::concatenated(before, last), rest)),
                    }
                } else {
                    Ok((last, next))
                }
            },
        }
    }
}

/// Reads one branch: all of `text[at..end]`.
fn branch(text: &Vec<char>, at: usize, end: usize) -> (read: Result<(RegExpr, usize), ParseError>)
    requires
        at <= end <= text@.len(),
    ensures
        agrees(read, read_branch(text@, at as nat, end as nat)),
        read is Ok ==> read->Ok_0.1 == end,
    decreases end - at, 6nat,
{
    match sequence(text, at, end) {
        Err(fault) => Err(fault),
        Ok((right, next)) => {
            if next < end {
                match branch(text, next + 1, end) {
                    Err(fault) => Err(fault),
                    Ok((left, rest)) => {
                        let either = RegExpr::Branch(Box::new(left), Box::new(right));
                        proof {
                            lemma_tree_unfolds(either);
                        }
                        Ok((either, rest))
                    },
                }
            } else {
                Ok((right, next))
            }
        },
    }
}

/// The characters of `list` in reverse order.
pub fn reversed(list: &Vec<char>) -> (back: Vec<char>)
    ensures
        back@ == list@.reverse(),
{
    let mut back: Vec<char> = Vec::new();
    let mut i: usize = list.len();
    while i > 0
        invariant
            i <= list@.len(),
            back@.len() == list@.len() - i,
            forall|k: int| 0 <= k < back@.len() ==> back@[k] == list@[list@.len() - 1 - k],
        decreases i,
    {
        i -= 1;
        back.push(list[i]);
    }
    assert(back@ =~= list@.reverse());
    back
}

/// Reads a pattern into its expression tree, or refuses it.
pub fn parse(input: &str) -> (read: Result<RegExpr, ParseError>)
    ensures
        match read {
            Ok(expr) => parsed(input@) == Ok::<Tree, ParseError>(expr.tree()),
            Err(fault) => parsed(input@) == Err::<Tree, ParseError>(fault),
        },
{
    let chars = chars_of(input);
    let text = reversed(&chars);
    match branch(&text, 0, text.len()) {
        Err(fault) => Err(fault),
        Ok((expr, _)) => Ok(expr),
    }
}

} // verus!
