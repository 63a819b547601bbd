//! The matching engine: a transition table that runs over a string.

use crate::dfa::transitions;
use crate::dfa::unambiguous;
use crate::dfa::DFANode;
use crate::dfa::Dfa;
use crate::dfa::State;
use crate::dfa::Transition;
use crate::dfa::DFA;
use crate::sets::lemma_prefix_ends;
use crate::sets::lemma_prefix_grows;
use crate::text::chars_of;
use vstd::prelude::*;

verus! {

/// One entry of a row of the table: under `condition` the row's state
/// moves to `to`.
struct Arc {
    condition: char,
    to: DFANode,
}

/// The row of one state: where each character leads from it.
struct Row {
    from: DFANode,
    arcs: Vec<Arc>,
}

/// Whether the row holds the transition `t`.
spec fn row_holds(row: Row, t: Transition) -> bool {
    row.from@ == t.from && exists|a: int|
        0 <= a < row.arcs@.len() && (#[trigger] row.arcs@[a]).condition == t.condition
            && row.arcs@[a].to@ == t.to
}

/// The transitions that the rows hold.
spec fn table(rows: Seq<Row>) -> Set<Transition> {
    Set::new(|t: Transition| exists|r: int| 0 <= r < rows.len() && row_holds(#[trigger] rows[r], t))
}

/// Whether no two rows belong to one state and no row holds a character
/// twice.
spec fn table_ok(rows: Seq<Row>) -> bool {
    &&& forall|r: int, q: int|
        0 <= r < q < rows.len() ==> (#[trigger] rows[r]).from@ != (#[trigger] rows[q]).from@
    &&& forall|r: int, a: int, b: int|
        0 <= r < rows.len() && 0 <= a < b < rows[r].arcs@.len() ==> (
        #[trigger] rows[r].arcs@[a]).condition != (#[trigger] rows[r].arcs@[b]).condition
}

/// A matcher for whole strings: the transition table of a deterministic
/// automaton together with its start state.
pub struct Engine {
    start: DFANode,
    rows: Vec<Row>,
}

impl View for Engine {
    type V = Dfa;

    /// The automaton that the table stands for.
    closed spec fn view(&self) -> Dfa {
        Dfa { start: self.start@, edges: table(self.rows@) }
    }
}

/// The row of the state `q`, if the table has one.
fn find_row(rows: &Vec<Row>, q: &DFANode) -> (found: Option<usize>)
    ensures
        match found {
            Some(r) => r < rows@.len() && rows@[r as int].from@ == q@,
            None => forall|r: int| 0 <= r < rows@.len() ==> (#[trigger] rows@[r]).from@ != q@,
        },
{
    let mut r: usize = 0;
    while r < rows.len()
        invariant
            r <= rows@.len(),
            forall|k: int| 0 <= k < r ==> (#[trigger] rows@[k]).from@ != q@,
        decreases rows@.len() - r,
    {
        if rows[r].from.equals(q) {
            return Some(r);
        }
        r += 1;
    }
    None
}

/// The entry for the character `c` in a row, if the row has one.
fn find_arc(arcs: &Vec<Arc>, c: char) -> (found: Option<usize>)
    ensures
        match found {
            Some(a) => a < arcs@.len() && arcs@[a as int].condition == c,
            None => forall|a: int| 0 <= a < arcs@.len() ==> (#[trigger] arcs@[a]).condition != c,
        },
{
    let mut a: usize = 0;
    while a < arcs.len()
        invariant
            a <= arcs@.len(),
            forall|k: int| 0 <= k < a ==> (#[trigger] arcs@[k]).condition != c,
        decreases arcs@.len() - a,
    {
        if arcs[a].condition == c {
            return Some(a);
        }
        a += 1;
    }
    None
}

/// A table in good order stands for a deterministic automaton, and a
/// lookup in it finds the one transition there is.
proof fn lemma_table_lookup(rows: Seq<Row>, start: State, r: int, a: int)
    requires
        table_ok(rows),
        0 <= r < rows.len(),
        0 <= a < rows[r].arcs@.len(),
    ensures
        (Dfa { start, edges: table(rows) }).next(rows[r].from@, rows[r].arcs@[a].condition)
            == Some(rows[r].arcs@[a].to@),
{
    let dfa = Dfa { start, edges: table(rows) };
    let from = rows[r].from@;
    let c = rows[r].arcs@[a].condition;
    let made = Transition { condition: c, from, to: rows[r].arcs@[a].to@ };
    assert(row_holds(rows[r], made));
    assert(dfa.edges.contains(made));
    assert(dfa.has_next(from, c));
    let t = choose|t: Transition| dfa.edges.contains(t) && t.from == from && t.condition == c;
    let r2 = choose|r2: int| 0 <= r2 < rows.len() && row_holds(#[trigger] rows[r2], t);
    if r2 < r {
        assert(rows[r2].from@ != rows[r].from@);
    }
    if r < r2 {
        assert(rows[r].from@ != rows[r2].from@);
    }
    let a2 = choose|a2: int|
        0 <= a2 < rows[r].arcs@.len() && (#[trigger] rows[r].arcs@[a2]).condition == t.condition
            && rows[r].arcs@[a2].to@ == t.to;
    if a2 < a {
        assert(rows[r].arcs@[a2].condition != rows[r].arcs@[a].condition);
    }
    if a < a2 {
        assert(rows[r].arcs@[a].condition != rows[r].arcs@[a2].condition);
    }
}

/// A state without a row has no transition.
proof fn lemma_table_no_row(rows: Seq<Row>, start: State, q: State, c: char)
    requires
        forall|r: int| 0 <= r < rows.len() ==> (#[trigger] rows[r]).from@ != q,
    ensures
        (Dfa { start, edges: table(rows) }).next(q, c) is None,
{
    let dfa = Dfa { start, edges: table(rows) };
    if dfa.has_next(q, c) {
        let t = choose|t: Transition| dfa.edges.contains(t) && t.from == q && t.condition == c;
        let r = choose|r: int| 0 <= r < rows.len() && row_holds(#[trigger] rows[r], t);
        assert(rows[r].from@ != q);
    }
}

/// A row without an entry for a character has no transition under it.
proof fn lemma_table_no_arc(rows: Seq<Row>, start: State, r: int, c: char)
    requires
        table_ok(rows),
        0 <= r < rows.len(),
        forall|a: int| 0 <= a < rows[r].arcs@.len() ==> (#[trigger] rows[r].arcs@[a]).condition != c,
    ensures
        (Dfa { start, edges: table(rows) }).next(rows[r].from@, c) is None,
{
    let dfa = Dfa { start, edges: table(rows) };
    let q = rows[r].from@;
    if dfa.has_next(q, c) {
        let t = choose|t: Transition| dfa.edges.contains(t) && t.from == q && t.condition == c;
        let r2 = choose|r2: int| 0 <= r2 < rows.len() && row_holds(#[trigger] rows[r2], t);
        if r2 < r {
            assert(rows[r2].from@ != rows[r].from@);
        }
        if r < r2 {
            assert(rows[r].from@ != rows[r2].from@);
        }
        let a = choose|a: int|
            0 <= a < rows[r].arcs@.len() && (#[trigger] rows[r].arcs@[a]).condition == t.condition
                && rows[r].arcs@[a].to@ == t.to;
        assert(rows[r].arcs@[a].condition != c);
    }
}

/// A new row with one entry adds one transition to the table.
proof fn lemma_table_add_row(rows: Seq<Row>, row: Row)
    requires
        table_ok(rows),
        row.arcs@.len() == 1,
        forall|r: int| 0 <= r < rows.len() ==> (#[trigger] rows[r]).from@ != row.from@,
    ensures
        table_ok(rows.push(row)),
        table(rows.push(row)) == table(rows).insert(
            Transition { condition: row.arcs@[0].condition, from: row.from@, to: row.arcs@[0].to@ },
        ),
{
    let more = rows.push(row);
    let made = Transition {
        condition: row.arcs@[0].condition,
        from: row.from@,
        to: row.arcs@[0].to@,
    };
    assert forall|t: Transition| table(more).contains(t) == table(rows).insert(made).contains(
        t,
    ) by {
        if table(more).contains(t) {
            let r = choose|r: int| 0 <= r < more.len() && row_holds(#[trigger] more[r], t);
            if r < rows.len() {
                assert(row_holds(rows[r], t));
            } else {
                assert(t == made);
            }
        }
        if table(rows).contains(t) {
            let r = choose|r: int| 0 <= r < rows.len() && row_holds(#[trigger] rows[r], t);
            assert(row_holds(more[r], t));
        }
        if t == made {
            assert(row.arcs@[0].condition == t.condition);
            assert(row_holds(more[rows.len() as int], t));
        }
    }
    assert(table(more) =~= table(rows).insert(made));
    assert forall|r: int, q: int| 0 <= r < q < more.len() implies (#[trigger] more[r]).from@ != (
    #[trigger] more[q]).from@ by {
        if q < rows.len() {
            assert(rows[r].from@ != rows[q].from@);
        } else {
            assert(rows[r].from@ != row.from@);
        }
    }
    assert forall|r: int, a: int, b: int|
        0 <= r < more.len() && 0 <= a < b < more[r].arcs@.len() implies (
    #[trigger] more[r].arcs@[a]).condition != (#[trigger] more[r].arcs@[b]).condition by {
        if r < rows.len() {
            assert(rows[r].arcs@[a].condition != rows[r].arcs@[b].condition);
        }
    }
}

/// A new entry in a row that has none for its character adds one
/// transition to the table.
proof fn lemma_table_add_arc(rows: Seq<Row>, r: int, arc: Arc, more: Seq<Row>)
    requires
        table_ok(rows),
        0 <= r < rows.len(),
        forall|a: int|
            0 <= a < rows[r].arcs@.len() ==> (#[trigger] rows[r].arcs@[a]).condition
                != arc.condition,
        more.len() == rows.len(),
        forall|k: int| 0 <= k < rows.len() && k != r ==> more[k] == rows[k],
        more[r].from@ == rows[r].from@,
        more[r].arcs@ == rows[r].arcs@.push(arc),
    ensures
        table_ok(more),
        table(more) == table(rows).insert(
            Transition { condition: arc.condition, from: rows[r].from@, to: arc.to@ },
        ),
{
    let made = Transition { condition: arc.condition, from: rows[r].from@, to: arc.to@ };
    let last = rows[r].arcs@.len() as int;
    assert forall|t: Transition| table(more).contains(t) == table(rows).insert(made).contains(
        t,
    ) by {
        if table(more).contains(t) {
            let k = choose|k: int| 0 <= k < more.len() && row_holds(#[trigger] more[k], t);
            if k != r {
                assert(row_holds(rows[k], t));
            } else {
                let a = choose|a: int|
                    0 <= a < more[r].arcs@.len() && (#[trigger] more[r].arcs@[a]).condition
                        == t.condition && more[r].arcs@[a].to@ == t.to;
                if a < last {
                    assert(rows[r].arcs@[a].condition == t.condition);
                    assert(row_holds(rows[r], t));
                } else {
                    assert(t == made);
                }
            }
        }
        if table(rows).contains(t) {
            let k = choose|k: int| 0 <= k < rows.len() && row_holds(#[trigger] rows[k], t);
            if k != r {
                assert(row_holds(more[k], t));
            } else {
                let a = choose|a: int|
                    0 <= a < rows[r].arcs@.len() && (#[trigger] rows[r].arcs@[a]).condition
                        == t.condition && rows[r].arcs@[a].to@ == t.to;
                assert(more[r].arcs@[a].condition == t.condition);
                assert(row_holds(more[r], t));
            }
        }
        if t == made {
            assert(more[r].arcs@[last].condition == t.condition);
            assert(row_holds(more[r], t));
        }
    }
    assert(table(more) =~= table(rows).insert(made));
    assert forall|k: int, q: int| 0 <= k < q < more.len() implies (#[trigger] more[k]).from@ != (
    #[trigger] more[q]).from@ by {
        assert(rows[k].from@ != rows[q].from@);
    }
    assert forall|k: int, a: int, b: int|
        0 <= k < more.len() && 0 <= a < b < more[k].arcs@.len() implies (
    #[trigger] more[k].arcs@[a]).condition != (#[trigger] more[k].arcs@[b]).condition by {
        if k != r {
            assert(rows[k].arcs@[a].condition != rows[k].arcs@[b].condition);
        } else if b < last {
            assert(rows[k].arcs@[a].condition != rows[k].arcs@[b].condition);
        } else {
            assert(rows[r].arcs@[a].condition != arc.condition);
        }
    }
}

/// An entry that is in the table already: where transitions are
/// deterministic, the transition for its state and character is the one in
/// the table.
proof fn lemma_table_has_arc(rows: Seq<Row>, r: int, a: int, t: Transition, all: Set<Transition>)
    requires
        0 <= r < rows.len(),
        0 <= a < rows[r].arcs@.len(),
        rows[r].from@ == t.from,
        rows[r].arcs@[a].condition == t.condition,
        table(rows).subset_of(all),
        all.contains(t),
        unambiguous(all),
    ensures
        table(rows).insert(t) == table(rows),
{
    let held = Transition { condition: t.condition, from: t.from, to: rows[r].arcs@[a].to@ };
    assert(row_holds(rows[r], held));
    assert(table(rows).contains(held));
    assert(all.contains(held));
    assert(held == t);
    assert(table(rows).insert(t) =~= table(rows));
}

impl Engine {
    #[verifier::type_invariant]
    spec fn in_order(&self) -> bool {
        table_ok(self.rows@)
    }

    /// Builds the transition table of `dfa`: one row for each state that a
    /// transition leaves, one entry for each character under which one
    /// does. The automaton has to be deterministic: no two of its
    /// transitions may leave one state under one character.
    pub fn new(dfa: DFA) -> (engine: Engine)
        requires
            dfa@.deterministic(),
        ensures
            engine@ == dfa@,
    {
        let DFA { start, edges } = dfa;
        let ghost all = transitions(edges@);
        let mut rows: Vec<Row> = Vec::new();
        let mut i: usize = 0;
        proof {
            lemma_prefix_ends(all);
            assert(table(rows@) =~= Set::<Transition>::empty());
        }
        while i < edges.len()
            invariant
                i <= edges@.len(),
                all == transitions(edges@),
                unambiguous(all.to_set()),
                table_ok(rows@),
                table(rows@) == all.subrange(0, i as int).to_set(),
            decreases edges@.len() - i,
        {
            let edge = edges[i].clone();
            let ghost t = edge@;
            let ghost before = rows@;
            proof {
                lemma_prefix_grows(all, i as int);
                assert(all[i as int] == t);
                assert(all.to_set().contains(t));
                assert forall|x: Transition| table(before).contains(x) implies all.to_set().contains(
                    x,
                ) by {
                    let k = choose|k: int| 0 <= k < i && all.subrange(0, i as int)[k] == x;
                    assert(all[k] == x);
                }
            }
            match find_row(&rows, &edge.from) {
                Some(r) => {
                    match find_arc(&rows[r].arcs, edge.condition) {
                        Some(a) => {
                            proof {
                                lemma_table_has_arc(before, r as int, a as int, t, all.to_set());
                            }
                        },
                        None => {
                            let arc = Arc { condition: edge.condition, to: edge.to };
                            let mut row = rows.remove(r);
                            row.arcs.push(arc);
                            rows.insert(r, row);
                            proof {
                                lemma_table_add_arc(before, r as int, arc, rows@);
                            }
                        },
                    }
                },
                None => {
                    let mut arcs: Vec<Arc> = Vec::new();
                    arcs.push(Arc { condition: edge.condition, to: edge.to });
                    let row = Row { from: edge.from, arcs };
                    proof {
                        lemma_table_add_row(before, row);
                    }
                    rows.push(row);
                },
            }
            i += 1;
        }
        proof {
            lemma_prefix_ends(all);
        }
        Engine { start, rows }
    }

    /// Whether the whole of `s` is in the language of the automaton.
    ///
    /// The run begins in the start state and takes the characters from left
    /// to right. A character for which the table has no entry ends the run
    /// with `false`; after the last character the answer is whether the
    /// state reached accepts. Nothing is kept from one call to the next.
    pub fn match_string(&self, s: &str) -> (accepted: bool)
        ensures
            accepted == self@.accepts(s@),
    {
        let input = chars_of(s);
        self.match_chars(&input)
    }

    /// Whether the whole of `input` is in the language of the automaton.
    pub fn match_chars(&self, input: &Vec<char>) -> (accepted: bool)
        ensures
            accepted == self@.accepts(input@),
    {
        proof {
            use_type_invariant(self);
        }
        let mut current: &DFANode = &self.start;
        let mut i: usize = 0;
        assert(input@.subrange(0, input@.len() as int) =~= input@);
        while i < input.len()
            invariant
                i <= input@.len(),
                table_ok(self.rows@),
                self@.run(self@.start, input@) == self@.run(
                    current@,
                    input@.subrange(i as int, input@.len() as int),
                ),
            decreases input@.len() - i,
        {
            let c = input[i];
            let ghost rest = input@.subrange(i as int, input@.len() as int);
            assert(rest[0] == c);
            assert(rest.drop_first() =~= input@.subrange(i + 1, input@.len() as int));
            match find_row(&self.rows, current) {
                None => {
                    proof {
                        lemma_table_no_row(self.rows@, self.start@, current@, c);
                    }
                    return false;
                },
                Some(r) => {
                    match find_arc(&self.rows[r].arcs, c) {
                        None => {
                            proof {
                                lemma_table_no_arc(self.rows@, self.start@, r as int, c);
                            }
                            return false;
                        },
                        Some(a) => {
                            proof {
                                lemma_table_lookup(self.rows@, self.start@, r as int, a as int);
                            }
                            current = &self.rows[r].arcs[a].to;
                        },
                    }
                },
            }
            i += 1;
        }
        current.is_acceptor
    }
}

} // verus!
