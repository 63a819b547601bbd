//! Expression trees and the language each one denotes.

use vstd::prelude::*;

verus! {

/// A regular expression as a tree.
#[derive(Debug, PartialEq, Eq)]
pub enum RegExpr {
    /// Exactly the one-character string `c`.
    Character(char),
    /// Any one-character string whose character is listed.
    Range(Vec<char>),
    /// Zero or more strings of the operand, one after another.
    Repetition(Box<RegExpr>),
    /// A string of either operand.
    Branch(Box<RegExpr>, Box<RegExpr>),
    /// One string of each item, in order, one after another.
    Sequence(Vec<RegExpr>),
}

/// An expression tree as a mathematical value.
pub enum Tree {
    /// Exactly the one-character string `c`.
    Character(char),
    /// Any one-character string whose character is listed.
    Range(Seq<char>),
    /// Zero or more strings of the operand, one after another.
    Repetition(Box<Tree>),
    /// A string of either operand.
    Branch(Box<Tree>, Box<Tree>),
    /// One string of each item, in order, one after another.
    Sequence(Seq<Tree>),
}

impl RegExpr {
    /// This expression as a mathematical value.
    pub open spec fn tree(self) -> Tree
        decreases self,
    {
        match self {
            RegExpr::Character(c) => Tree::Character(c),
            RegExpr::Range(chars) => Tree::Range(chars@),
            RegExpr::Repetition(inner) => Tree::Repetition(Box::new(inner.tree())),
            RegExpr::Branch(lhs, rhs) => Tree::Branch(
                Box::new(lhs.tree()),
                Box::new(rhs.tree()),
            ),
            RegExpr::Sequence(items) => Tree::Sequence(trees(items@, items@.len())),
        }
    }
}

/// The first `upto` of `items` as mathematical values.
pub open spec fn trees(items: Seq<RegExpr>, upto: nat) -> Seq<Tree>
    decreases items, upto,
{
    if upto == 0 || upto > items.len() {
        Seq::empty()
    } else {
        trees(items, (upto - 1) as nat).push(items[upto - 1].tree())
    }
}

impl Tree {
    /// Whether `s`, taken whole, belongs to the language of this expression.
    pub open spec fn matches(self, s: Seq<char>) -> bool
        decreases self, 0nat,
    {
        match self {
            Tree::Character(c) => s == seq![c],
            Tree::Range(set) => s.len() == 1 && set.contains(s[0]),
            Tree::Repetition(inner) => repeats(*inner, s),
            Tree::Branch(lhs, rhs) => lhs.matches(s) || rhs.matches(s),
            Tree::Sequence(items) => chains(items, items.len(), s),
        }
    }

    /// Whether the graph of this expression begins in a node of its own,
    /// which no edge leads into: so it is for a character, a range and a
    /// branch, for a sequence whose first item is so, and for the empty
    /// sequence; a repetition is entered anew after each round.
    pub open spec fn opens_fresh(self) -> bool
        decreases self,
    {
        match self {
            Tree::Character(_) => true,
            Tree::Range(_) => true,
            Tree::Repetition(_) => false,
            Tree::Branch(_, _) => true,
            Tree::Sequence(items) => items.len() == 0 || items[0].opens_fresh(),
        }
    }

    /// Whether the graph of this expression ends in nodes that no edge
    /// leaves: so it is for a character, a range and a branch, for a
    /// sequence whose last item is so, and for the empty sequence; a
    /// repetition is left from the nodes at which a round ends.
    pub open spec fn closes_fresh(self) -> bool
        decreases self,
    {
        match self {
            Tree::Character(_) => true,
            Tree::Range(_) => true,
            Tree::Repetition(_) => false,
            Tree::Branch(_, _) => true,
            Tree::Sequence(items) => items.len() == 0 || items[items.len() - 1].closes_fresh(),
        }
    }

    /// Whether this expression is a repetition, bare or as the one item of
    /// a sequence. To repeat it again changes nothing.
    pub open spec fn is_loop(self) -> bool
        decreases self,
    {
        match self {
            Tree::Repetition(_) => true,
            Tree::Sequence(items) => items.len() == 1 && items[0].is_loop(),
            _ => false,
        }
    }

    /// Whether every repetition in this expression has an operand whose
    /// graph begins and ends in nodes of its own, or an operand that is a
    /// repetition itself. The graph of such an expression accepts the
    /// language of the expression; a repetition of a sequence that begins
    /// or ends with a repetition, as in `(ab*)*`, shares the nodes of the
    /// two loops, and its graph accepts more.
    pub open spec fn loops_isolated(self) -> bool
        decreases self,
    {
        match self {
            Tree::Character(_) => true,
            Tree::Range(_) => true,
            Tree::Repetition(inner) => inner.loops_isolated() && (inner.is_loop() || (
            inner.opens_fresh() && inner.closes_fresh())),
            Tree::Branch(lhs, rhs) => lhs.loops_isolated() && rhs.loops_isolated(),
            Tree::Sequence(items) => forall|i: int|
                0 <= i < items.len() ==> (#[trigger] items[i]).loops_isolated(),
        }
    }
}

/// Whether `s` splits into zero or more non-empty pieces, each in the
/// language of `inner`. (Empty pieces add nothing to a concatenation, so
/// leaving them out changes no language.)
pub open spec fn repeats(inner: Tree, s: Seq<char>) -> bool
    decreases inner, s.len() + 1,
{
    s.len() == 0 || exists|k: int|
        0 < k <= s.len() && inner.matches(#[trigger] s.subrange(0, k)) && repeats(
            inner,
            s.subrange(k, s.len() as int),
        )
}

/// Whether `s` splits into one piece for each of the first `upto` items, in
/// order, each piece in the language of its item.
pub open spec fn chains(items: Seq<Tree>, upto: nat, s: Seq<char>) -> bool
    decreases items, upto,
{
    if upto == 0 || upto > items.len() {
        s.len() == 0
    } else {
        exists|k: int|
            0 <= k <= s.len() && chains(items, (upto - 1) as nat, #[trigger] s.subrange(0, k))
                && items[upto - 1].matches(s.subrange(k, s.len() as int))
    }
}

/// What it is for a repetition to match, in one step.
pub proof fn lemma_repeats_unfolds(inner: Tree, s: Seq<char>)
    ensures
        repeats(inner, s) <==> (s.len() == 0 || exists|k: int|
            0 < k <= s.len() && inner.matches(#[trigger] s.subrange(0, k)) && repeats(
                inner,
                s.subrange(k, s.len() as int),
            )),
{
}

/// What it is for the first items of a sequence to match, in one step.
pub proof fn lemma_chains_unfolds(items: Seq<Tree>, upto: nat, s: Seq<char>)
    ensures
        upto == 0 || upto > items.len() ==> (chains(items, upto, s) <==> s.len() == 0),
        0 < upto <= items.len() ==> (chains(items, upto, s) <==> exists|k: int|
            0 <= k <= s.len() && chains(items, (upto - 1) as nat, #[trigger] s.subrange(0, k))
                && items[upto - 1].matches(s.subrange(k, s.len() as int))),
{
}

/// The first items of a list as mathematical values, in one step.
pub proof fn lemma_trees_unfolds(items: Seq<RegExpr>, upto: nat)
    ensures
        upto == 0 || upto > items.len() ==> trees(items, upto) == Seq::<Tree>::empty(),
        0 < upto <= items.len() ==> trees(items, upto) == trees(items, (upto - 1) as nat).push(
            items[upto - 1].tree(),
        ),
{
}

/// The first items of a list as mathematical values: one for each, in
/// order.
pub proof fn lemma_trees_each(items: Seq<RegExpr>, upto: nat)
    requires
        upto <= items.len(),
    ensures
        trees(items, upto).len() == upto,
        forall|i: int| 0 <= i < upto ==> trees(items, upto)[i] == (#[trigger] items[i]).tree(),
    decreases upto,
{
    lemma_trees_unfolds(items, upto);
    if upto > 0 {
        lemma_trees_each(items, (upto - 1) as nat);
    }
}

/// An expression as a mathematical value, in one step.
pub proof fn lemma_tree_unfolds(expr: RegExpr)
    ensures
        expr.tree() == (match expr {
            RegExpr::Character(c) => Tree::Character(c),
            RegExpr::Range(chars) => Tree::Range(chars@),
            RegExpr::Repetition(inner) => Tree::Repetition(Box::new(inner.tree())),
            RegExpr::Branch(lhs, rhs) => Tree::Branch(
                Box::new(lhs.tree()),
                Box::new(rhs.tree()),
            ),
            RegExpr::Sequence(items) => Tree::Sequence(trees(items@, items@.len())),
        }),
{
}

impl RegExpr {
    /// Whether the graph of this expression begins in a node of its own.
    pub fn has_fresh_start(&self) -> (fresh: bool)
        ensures
            fresh == self.tree().opens_fresh(),
        decreases self,
    {
        proof {
            lemma_tree_unfolds(*self);
        }
        match self {
            RegExpr::Character(_) => true,
            RegExpr::Range(_) => true,
            RegExpr::Repetition(_) => false,
            RegExpr::Branch(_, _) => true,
            RegExpr::Sequence(items) => {
                proof {
                    lemma_trees_each(items@, items@.len());
                }
                items.len() == 0 || items[0].has_fresh_start()
            },
        }
    }

    /// Whether the graph of this expression ends in nodes of its own.
    pub fn has_fresh_end(&self) -> (fresh: bool)
        ensures
            fresh == self.tree().closes_fresh(),
        decreases self,
    {
        proof {
            lemma_tree_unfolds(*self);
        }
        match self {
            RegExpr::Character(_) => true,
            RegExpr::Range(_) => true,
            RegExpr::Repetition(_) => false,
            RegExpr::Branch(_, _) => true,
            RegExpr::Sequence(items) => {
                proof {
                    lemma_trees_each(items@, items@.len());
                }
                items.len() == 0 || items[items.len() - 1].has_fresh_end()
            },
        }
    }

    /// Whether this expression is a repetition, bare or as the one item of
    /// a sequence.
    pub fn is_repetition(&self) -> (repeated: bool)
        ensures
            repeated == self.tree().is_loop(),
        decreases self,
    {
        proof {
            lemma_tree_unfolds(*self);
        }
        match self {
            RegExpr::Repetition(_) => true,
            RegExpr::Sequence(items) => {
                proof {
                    lemma_trees_each(items@, items@.len());
                }
                items.len() == 1 && items[0].is_repetition()
            },
            _ => false,
        }
    }

    /// Whether every repetition in this expression has an operand whose
    /// graph begins and ends in nodes of its own, or an operand that is a
    /// repetition itself.
    pub fn has_isolated_loops(&self) -> (isolated: bool)
        ensures
            isolated == self.tree().loops_isolated(),
        decreases self,
    {
        proof {
            lemma_tree_unfolds(*self);
        }
        match self {
            RegExpr::Character(_) => true,
            RegExpr::Range(_) => true,
            RegExpr::Repetition(inner) => inner.has_isolated_loops() && (inner.is_repetition() || (
            inner.has_fresh_start() && inner.has_fresh_end())),
            RegExpr::Branch(lhs, rhs) => lhs.has_isolated_loops() && rhs.has_isolated_loops(),
            RegExpr::Sequence(items) => {
                let ghost all = trees(items@, items@.len());
                proof {
                    lemma_trees_each(items@, items@.len());
                    assert(self.tree() == Tree::Sequence(all));
                    lemma_sequence_isolated(all);
                }
                let mut i: usize = 0;
                while i < items.len()
                    invariant
                        i <= items@.len(),
                        decreases_to!(self => items),
                        all.len() == items@.len(),
                        forall|k: int| 0 <= k < items@.len() ==> all[k] == (#[trigger] items@[k]).tree(),
                        self.tree().loops_isolated() == (forall|k: int|
                            0 <= k < all.len() ==> (#[trigger] all[k]).loops_isolated()),
                        forall|k: int| 0 <= k < i ==> (#[trigger] all[k]).loops_isolated(),
                    decreases items@.len() - i,
                {
                    assert(decreases_to!(items => items[i as int]));
                    if !items[i].has_isolated_loops() {
                        assert(!all[i as int].loops_isolated());
                        return false;
                    }
                    i += 1;
                }
                true
            },
        }
    }
}

/// The loops of a sequence are isolated when those of each item are.
pub proof fn lemma_sequence_isolated(items: Seq<Tree>)
    ensures
        Tree::Sequence(items).loops_isolated() == (forall|k: int|
            0 <= k < items.len() ==> (#[trigger] items[k]).loops_isolated()),
{
    if Tree::Sequence(items).loops_isolated() {
        let whole = Tree::Sequence(items);
        assert(whole->Sequence_0 == items);
        assert forall|k: int| 0 <= k < items.len() implies (#[trigger] items[k]).loops_isolated() by {
            assert(whole->Sequence_0[k].loops_isolated());
        }
    }
    if forall|k: int| 0 <= k < items.len() ==> (#[trigger] items[k]).loops_isolated() {
        assert(Tree::Sequence(items).loops_isolated());
    }
}

} // verus!
