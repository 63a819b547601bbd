//! Deterministic automata: states that stand for sets of graph nodes.

use crate::node::Node;
use crate::node::lemma_nodes_before_chain;
use crate::node::lemma_nodes_before_itself;
use crate::node::lemma_nodes_before_total;
use crate::node::nodes_before;
use crate::node::NodeSet;
use vstd::prelude::*;

verus! {

/// A deterministic state as a mathematical value: the set of graph nodes it
/// stands for, and whether it accepts.
pub struct State {
    pub nodes: Set<Node>,
    pub is_acceptor: bool,
}

/// A deterministic transition as a mathematical value.
pub struct Transition {
    pub condition: char,
    pub from: State,
    pub to: State,
}

/// A deterministic automaton as a mathematical value.
pub struct Dfa {
    pub start: State,
    pub edges: Set<Transition>,
}

/// A state of a deterministic automaton. Its identity is the set of graph
/// nodes it stands for.
#[derive(Debug, PartialEq, Eq)]
pub struct DFANode {
    pub nodes: NodeSet,
    pub is_acceptor: bool,
}

/// A transition of a deterministic automaton; its condition is always a
/// character.
#[derive(Debug, PartialEq, Eq)]
pub struct DFAEdge {
    pub condition: char,
    pub from: DFANode,
    pub to: DFANode,
}

/// A deterministic automaton: a start state and transitions. Whether a
/// state accepts is recorded in the state.
#[derive(Debug)]
pub struct DFA {
    pub start: DFANode,
    pub edges: Vec<DFAEdge>,
}

impl View for DFANode {
    type V = State;

    open spec fn view(&self) -> State {
        State { nodes: self.nodes@, is_acceptor: self.is_acceptor }
    }
}

impl View for DFAEdge {
    type V = Transition;

    open spec fn view(&self) -> Transition {
        Transition { condition: self.condition, from: self.from@, to: self.to@ }
    }
}

impl View for DFA {
    type V = Dfa;

    open spec fn view(&self) -> Dfa {
        Dfa { start: self.start@, edges: transitions(self.edges@).to_set() }
    }
}

/// The transitions of a list as mathematical values.
pub open spec fn transitions(list: Seq<DFAEdge>) -> Seq<Transition> {
    Seq::new(list.len(), |i: int| list[i]@)
}

impl Dfa {
    /// Whether a transition leaves `from` under `c`.
    pub open spec fn has_next(self, from: State, c: char) -> bool {
        exists|t: Transition| self.edges.contains(t) && t.from == from && t.condition == c
    }

    /// The state that the transition from `from` under `c` leads to, if
    /// there is such a transition.
    pub open spec fn next(self, from: State, c: char) -> Option<State> {
        if self.has_next(from, c) {
            Some(
                (choose|t: Transition|
                    self.edges.contains(t) && t.from == from && t.condition == c).to,
            )
        } else {
            None
        }
    }

    /// The state reached from `from` by consuming `s` from left to right, if
    /// every character finds a transition.
    pub open spec fn run(self, from: State, s: Seq<char>) -> Option<State>
        decreases s.len(),
    {
        if s.len() == 0 {
            Some(from)
        } else {
            match self.next(from, s[0]) {
                None => None,
                Some(to) => self.run(to, s.drop_first()),
            }
        }
    }

    /// Whether the automaton consumes all of `s` from its start state and
    /// ends in an accepting state.
    pub open spec fn accepts(self, s: Seq<char>) -> bool {
        match self.run(self.start, s) {
            Some(end) => end.is_acceptor,
            None => false,
        }
    }

    /// Whether at most one transition leaves each state under each
    /// character.
    pub open spec fn deterministic(self) -> bool {
        unambiguous(self.edges)
    }
}

/// Whether no two of the transitions leave one state under one character.
pub open spec fn unambiguous(edges: Set<Transition>) -> bool {
    forall|a: Transition, b: Transition|
        #![trigger edges.contains(a), edges.contains(b)]
        edges.contains(a) && edges.contains(b) && a.from == b.from && a.condition == b.condition
            ==> a == b
}

impl DFANode {
    /// Whether both states stand for the same set of nodes and agree on
    /// accepting; states that do are stored alike.
    pub fn equals(&self, other: &DFANode) -> (same: bool)
        ensures
            same == (self@ == other@),
            same == same_state(*self, *other),
    {
        self.is_acceptor == other.is_acceptor && self.nodes.equals(&other.nodes)
    }
}

impl Clone for DFANode {
    fn clone(&self) -> (copy: DFANode)
        ensures
            copy@ == self@,
            copy.nodes.seq() == self.nodes.seq(),
    {
        DFANode { nodes: self.nodes.clone(), is_acceptor: self.is_acceptor }
    }
}

impl Clone for DFAEdge {
    fn clone(&self) -> (copy: DFAEdge)
        ensures
            copy@ == self@,
    {
        DFAEdge { condition: self.condition, from: self.from.clone(), to: self.to.clone() }
    }
}

impl DFA {
    /// An automaton with the given start state and no transition.
    pub fn new(start: DFANode) -> (dfa: DFA)
        ensures
            dfa@.start == start@,
            dfa@.edges == Set::<Transition>::empty(),
            dfa.start == start,
            dfa.edges@ == Seq::<DFAEdge>::empty(),
            transitions_ascending(dfa.edges@),
    {
        let dfa = DFA { start, edges: Vec::new() };
        assert(dfa@.edges =~= Set::<Transition>::empty());
        dfa
    }
}

impl DFA {
    /// Whether at most one transition leaves each state under each
    /// character.
    pub fn is_deterministic(&self) -> (unique: bool)
        ensures
            unique == self@.deterministic(),
    {
        let ghost all = transitions(self.edges@);
        let mut i: usize = 0;
        while i < self.edges.len()
            invariant
                i <= self.edges@.len(),
                all == transitions(self.edges@),
                forall|a: int, b: int|
                    0 <= a < i && 0 <= b < all.len() && (#[trigger] all[a]).from == (
                    #[trigger] all[b]).from && all[a].condition == all[b].condition ==> all[a]
                        == all[b],
            decreases self.edges@.len() - i,
        {
            let mut j: usize = 0;
            while j < self.edges.len()
                invariant
                    i < self.edges@.len(),
                    j <= self.edges@.len(),
                    all == transitions(self.edges@),
                    forall|b: int|
                        0 <= b < j && all[i as int].from == (#[trigger] all[b]).from && all[i as int].condition
                            == all[b].condition ==> all[i as int] == all[b],
                decreases self.edges@.len() - j,
            {
                let one = &self.edges[i];
                let other = &self.edges[j];
                if one.condition == other.condition && one.from.equals(&other.from)
                    && !one.to.equals(&other.to) {
                    proof {
                        assert(all[i as int] == one@);
                        assert(all[j as int] == other@);
                        assert(all.to_set().contains(all[i as int]));
                        assert(all.to_set().contains(all[j as int]));
                    }
                    return false;
                }
                j += 1;
            }
            i += 1;
        }
        proof {
            assert forall|a: Transition, b: Transition|
                #![trigger all.to_set().contains(a), all.to_set().contains(b)]
                all.to_set().contains(a) && all.to_set().contains(b) && a.from == b.from
                    && a.condition == b.condition implies a == b by {
                let x = choose|x: int| 0 <= x < all.len() && all[x] == a;
                let y = choose|y: int| 0 <= y < all.len() && all[y] == b;
                assert(all[x] == all[y]);
            }
        }
        true
    }
}

/// Whether two states are stored alike: the same nodes in the same order,
/// and the same answer to whether they accept.
pub open spec fn same_state(a: DFANode, b: DFANode) -> bool {
    a.nodes.seq() == b.nodes.seq() && a.is_acceptor == b.is_acceptor
}

/// The order of states: by their sets of nodes, and of two states for one
/// set the one that does not accept first.
pub open spec fn state_before(a: DFANode, b: DFANode) -> bool {
    nodes_before(a.nodes.seq(), b.nodes.seq()) || (a.nodes.seq() == b.nodes.seq()
        && !a.is_acceptor && b.is_acceptor)
}

/// The order of transitions: by character, then by source, then by target.
pub open spec fn transition_before(a: DFAEdge, b: DFAEdge) -> bool {
    a.condition < b.condition || (a.condition == b.condition && (state_before(a.from, b.from) || (
    same_state(a.from, b.from) && state_before(a.to, b.to))))
}

/// Whether the transitions rise strictly from each entry to the next.
pub open spec fn transitions_ascending(list: Seq<DFAEdge>) -> bool {
    forall|i: int, j: int| 0 <= i < j < list.len() ==> transition_before(list[i], list[j])
}

/// Of two states, one comes before the other or they are stored alike.
pub proof fn lemma_state_before_total(a: DFANode, b: DFANode)
    ensures
        state_before(a, b) || state_before(b, a) || same_state(a, b),
        !(state_before(a, b) && same_state(a, b)),
{
    lemma_nodes_before_total(a.nodes.seq(), b.nodes.seq());
    lemma_nodes_before_itself(a.nodes.seq());
}

/// What comes before a state comes before all that the state comes
/// before.
pub proof fn lemma_state_before_chain(a: DFANode, b: DFANode, c: DFANode)
    requires
        state_before(a, b),
        state_before(b, c),
    ensures
        state_before(a, c),
{
    if nodes_before(a.nodes.seq(), b.nodes.seq()) && nodes_before(b.nodes.seq(), c.nodes.seq()) {
        lemma_nodes_before_chain(a.nodes.seq(), b.nodes.seq(), c.nodes.seq());
    }
}

/// Of two transitions, one comes before the other or they are the same
/// transition.
pub proof fn lemma_transition_before_total(a: DFAEdge, b: DFAEdge)
    ensures
        transition_before(a, b) || transition_before(b, a) || a@ == b@,
{
    lemma_state_before_total(a.from, b.from);
    lemma_state_before_total(a.to, b.to);
}

/// What comes before a transition comes before all that the transition
/// comes before.
pub proof fn lemma_transition_before_chain(a: DFAEdge, b: DFAEdge, c: DFAEdge)
    requires
        transition_before(a, b),
        transition_before(b, c),
    ensures
        transition_before(a, c),
{
    if a.condition == b.condition && b.condition == c.condition {
        lemma_state_before_total(a.from, b.from);
        lemma_state_before_total(b.from, c.from);
        if state_before(a.from, b.from) && state_before(b.from, c.from) {
            lemma_state_before_chain(a.from, b.from, c.from);
        } else if same_state(a.from, b.from) && same_state(b.from, c.from) {
            lemma_state_before_chain(a.to, b.to, c.to);
        } else if state_before(a.from, b.from) {
            assert(state_before(a.from, c.from));
        } else {
            assert(state_before(a.from, c.from));
        }
    }
}

impl DFANode {
    /// Whether this state comes strictly before `other` in the order of
    /// states.
    pub fn before(&self, other: &DFANode) -> (first: bool)
        ensures
            first == state_before(*self, *other),
    {
        if self.nodes.before(&other.nodes) {
            true
        } else {
            self.nodes.equals(&other.nodes) && !self.is_acceptor && other.is_acceptor
        }
    }
}

impl DFAEdge {
    /// Whether this transition comes strictly before `other` in the order
    /// of transitions.
    pub fn before(&self, other: &DFAEdge) -> (first: bool)
        ensures
            first == transition_before(*self, *other),
    {
        if self.condition != other.condition {
            self.condition < other.condition
        } else if self.from.before(&other.from) {
            true
        } else {
            self.from.equals(&other.from) && self.to.before(&other.to)
        }
    }
}

/// One more transition at a place in the list is one more in the set.
pub proof fn lemma_transitions_insert(list: Seq<DFAEdge>, at: int, edge: DFAEdge)
    requires
        0 <= at <= list.len(),
    ensures
        transitions(list.insert(at, edge)).to_set() == transitions(list).to_set().insert(edge@),
{
    let more = list.insert(at, edge);
    let old_set = transitions(list).to_set();
    let new_set = transitions(more).to_set();
    assert forall|t: Transition| new_set.contains(t) == old_set.insert(edge@).contains(t) by {
        if transitions(more).contains(t) {
            let k = choose|k: int| 0 <= k < more.len() && transitions(more)[k] == t;
            if k < at {
                assert(transitions(list)[k] == t);
            } else if k > at {
                assert(transitions(list)[k - 1] == t);
            }
        }
        if transitions(list).contains(t) {
            let k = choose|k: int| 0 <= k < list.len() && transitions(list)[k] == t;
            if k < at {
                assert(transitions(more)[k] == t);
            } else {
                assert(transitions(more)[k + 1] == t);
            }
        }
        if t == edge@ {
            assert(transitions(more)[at] == t);
        }
    }
    assert(new_set =~= old_set.insert(edge@));
}

impl DFA {
    /// Adds a transition. Where the transitions are listed in rising order,
    /// it is put at its place in that order, unless the automaton has it
    /// already.
    pub fn add_edge(&mut self, edge: DFAEdge)
        ensures
            final(self)@.edges == old(self)@.edges.insert(edge@),
            final(self).start == old(self).start,
            transitions_ascending(old(self).edges@) ==> transitions_ascending(final(self).edges@),
    {
        let ghost before = self.edges@;
        let mut i: usize = 0;
        while i < self.edges.len() && self.edges[i].before(&edge)
            invariant
                i <= self.edges@.len(),
                self.edges@ == before,
                forall|j: int| 0 <= j < i ==> transition_before(#[trigger] before[j], edge),
            decreases self.edges@.len() - i,
        {
            i += 1;
        }
        if i < self.edges.len() && !edge.before(&self.edges[i]) {
            proof {
                lemma_transition_before_total(before[i as int], edge);
                assert(transitions(before)[i as int] == edge@);
                assert(transitions(before).to_set().insert(edge@) =~= transitions(before).to_set());
            }
            return;
        }
        proof {
            lemma_transitions_insert(before, i as int, edge);
            let after = before.insert(i as int, edge);
            assert forall|a: int, b: int|
                transitions_ascending(before) && 0 <= a < b < after.len() implies transition_before(
                after[a],
                after[b],
            ) by {
                if a < i && b == i {
                } else if a < i && b > i {
                    assert(after[b] == before[b - 1]);
                    assert(transition_before(before[a], before[b - 1]));
                } else if a < i {
                    assert(transition_before(before[a], before[b]));
                } else if a == i {
                    assert(after[b] == before[b - 1]);
                    if b - 1 > i {
                        assert(transition_before(before[i as int], before[b - 1]));
                        lemma_transition_before_chain(edge, before[i as int], before[b - 1]);
                    }
                } else {
                    assert(after[a] == before[a - 1]);
                    assert(after[b] == before[b - 1]);
                    assert(transition_before(before[a - 1], before[b - 1]));
                }
            }
        }
        self.edges.insert(i, edge);
    }
}

} // verus!
