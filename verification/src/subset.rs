//! Subset construction: from a graph to a deterministic automaton.

use crate::dfa::transitions_ascending;
use crate::dfa::DFAEdge;
use crate::dfa::DFANode;
use crate::dfa::Dfa;
use crate::dfa::State;
use crate::dfa::Transition;
use crate::dfa::DFA;
use crate::graph::edge_before;
use crate::graph::edges_ascending;
use crate::graph::Edge;
use crate::graph::Graph;
use crate::node::Node;
use crate::node::NodeSet;
use crate::sets::lemma_distinct_subsets_bounded;
use crate::sets::lemma_prefix_ends;
use crate::sets::lemma_prefix_grows;
use crate::sets::lemma_prefix_lacks_next;
use crate::sets::lemma_push_set;
use crate::sets::subsets_of;
use crate::text::char_at;
use crate::subset_language::lemma_subset_construction_keeps_language;
use crate::walk::Nfa;
use vstd::prelude::*;

verus! {

/// Whether the set holds a node.
pub open spec fn inhabited(nodes: Set<Node>) -> bool {
    exists|n: Node| nodes.contains(n)
}

/// The nodes that the edges labelled `c` lead to from the nodes of `from`.
pub open spec fn step(edges: Set<Edge>, from: Set<Node>, c: char) -> Set<Node> {
    Set::new(
        |t: Node|
            exists|m: Node|
                from.contains(m) && edges.contains(Edge { condition: Some(c), from: m, to: t }),
    )
}

/// The nodes reached from the nodes of `from` by the labelled edges that
/// spell `s`.
pub open spec fn follow(edges: Set<Edge>, from: Set<Node>, s: Seq<char>) -> Set<Node>
    decreases s.len(),
{
    if s.len() == 0 {
        from
    } else {
        step(edges, follow(edges, from, s.drop_last()), s.last())
    }
}

/// The deterministic state that stands for `nodes`: it accepts when one of
/// the nodes is an acceptor of the graph.
pub open spec fn state_of(g: Nfa, nodes: Set<Node>) -> State {
    State { nodes, is_acceptor: !nodes.disjoint(g.acceptors) }
}

/// Whether `nodes` is a set that the construction meets: it holds a node,
/// and it is what some string reaches from the start node.
pub open spec fn discovered(g: Nfa, nodes: Set<Node>) -> bool {
    inhabited(nodes) && exists|s: Seq<char>| follow(g.edges, set![g.start], s) == nodes
}

/// The deterministic automaton of `g`. Its start state stands for the start
/// node alone. From the state of every set that the construction meets,
/// and for every character under which an edge leaves one of its nodes, one
/// transition leads to the state of the set of all targets of such edges.
/// Epsilon edges play no part.
pub open spec fn subset_construction(g: Nfa) -> Dfa {
    Dfa { start: state_of(g, set![g.start]), edges: Set::new(|t: Transition| is_transition(g, t)) }
}

/// Whether `t` is a transition of the deterministic automaton of `g`.
pub open spec fn is_transition(g: Nfa, t: Transition) -> bool {
    &&& discovered(g, t.from.nodes)
    &&& t.from == state_of(g, t.from.nodes)
    &&& t.to == state_of(g, step(g.edges, t.from.nodes, t.condition))
    &&& inhabited(t.to.nodes)
}

impl DFANode {
    /// The state that stands for `nodes` in the automaton of `graph`.
    pub fn new(nodes: NodeSet, graph: &Graph) -> (state: DFANode)
        ensures
            state@ == state_of(graph@, nodes@),
            state.nodes == nodes,
    {
        let is_acceptor = nodes.intersects(&graph.acceptors);
        DFANode { nodes, is_acceptor }
    }
}

proof fn lemma_step_grows(list: Seq<Edge>, j: int, from: Set<Node>, c: char)
    requires
        0 <= j < list.len(),
    ensures
        list[j].condition == Some(c) && from.contains(list[j].from) ==> step(
            list.subrange(0, j + 1).to_set(),
            from,
            c,
        ) == step(list.subrange(0, j).to_set(), from, c).insert(list[j].to),
        !(list[j].condition == Some(c) && from.contains(list[j].from)) ==> step(
            list.subrange(0, j + 1).to_set(),
            from,
            c,
        ) == step(list.subrange(0, j).to_set(), from, c),
{
    lemma_prefix_grows(list, j);
    let before = list.subrange(0, j).to_set();
    let after = list.subrange(0, j + 1).to_set();
    let hit = list[j].condition == Some(c) && from.contains(list[j].from);
    assert forall|t: Node| step(after, from, c).contains(t) == (step(before, from, c).contains(t)
        || (hit && t == list[j].to)) by {
        if step(after, from, c).contains(t) {
            let m = choose|m: Node|
                from.contains(m) && after.contains(Edge { condition: Some(c), from: m, to: t });
            let x = Edge { condition: Some(c), from: m, to: t };
            if x != list[j] {
                assert(before.contains(x));
            }
        }
        if step(before, from, c).contains(t) {
            let m = choose|m: Node|
                from.contains(m) && before.contains(Edge { condition: Some(c), from: m, to: t });
            assert(after.contains(Edge { condition: Some(c), from: m, to: t }));
        }
        if hit && t == list[j].to {
            assert(after.contains(Edge { condition: Some(c), from: list[j].from, to: t }));
        }
    }
    if hit {
        assert(step(after, from, c) =~= step(before, from, c).insert(list[j].to));
    } else {
        assert(step(after, from, c) =~= step(before, from, c));
    }
}

/// The set of all targets of the edges labelled `c` that leave a node of
/// `from`.
pub fn successors(graph: &Graph, from: &NodeSet, c: char) -> (found: NodeSet)
    ensures
        found@ == step(graph.edges@, from@, c),
{
    let mut found = NodeSet::new();
    let total = graph.edges.len();
    let mut j: usize = 0;
    proof {
        lemma_prefix_ends(graph.edges.seq());
        assert(step(Set::<Edge>::empty(), from@, c) =~= Set::<Node>::empty());
    }
    while j < total
        invariant
            j <= total,
            total == graph.edges.seq().len(),
            found@ == step(graph.edges.seq().subrange(0, j as int).to_set(), from@, c),
        decreases total - j,
    {
        let e = graph.edges.get(j);
        proof {
            lemma_step_grows(graph.edges.seq(), j as int, from@, c);
        }
        let hit = match e.condition {
            Some(d) => d == c && from.contains(e.from),
            None => false,
        };
        if hit {
            found.insert(e.to);
        }
        j += 1;
    }
    proof {
        lemma_prefix_ends(graph.edges.seq());
    }
    found
}

/// Whether some edge of the first `upto` of `list` is labelled `c` and
/// leaves a node of `from`.
pub open spec fn leaves_under(list: Seq<Edge>, upto: int, from: Set<Node>, c: char) -> bool {
    exists|i: int|
        0 <= i < upto && i < list.len() && (#[trigger] list[i]).condition == Some(c)
            && from.contains(list[i].from)
}

proof fn lemma_leaves_is_step(list: Seq<Edge>, from: Set<Node>, c: char)
    ensures
        leaves_under(list, list.len() as int, from, c) == inhabited(step(list.to_set(), from, c)),
{
    if leaves_under(list, list.len() as int, from, c) {
        let i = choose|i: int|
            0 <= i < list.len() && (#[trigger] list[i]).condition == Some(c) && from.contains(
                list[i].from,
            );
        assert(list.to_set().contains(list[i]));
        assert(list[i] == Edge { condition: Some(c), from: list[i].from, to: list[i].to });
        assert(step(list.to_set(), from, c).contains(list[i].to));
    }
    if inhabited(step(list.to_set(), from, c)) {
        let t = choose|t: Node| step(list.to_set(), from, c).contains(t);
        let m = choose|m: Node|
            from.contains(m) && list.to_set().contains(Edge { condition: Some(c), from: m, to: t });
        let e = Edge { condition: Some(c), from: m, to: t };
        let i = choose|i: int| 0 <= i < list.len() && list[i] == e;
        assert(list[i].condition == Some(c) && from.contains(list[i].from));
    }
}

/// Whether `c` is one of `list`.
pub fn holds_char(list: &Vec<char>, c: char) -> (found: bool)
    ensures
        found == list@.contains(c),
{
    let mut i: usize = 0;
    while i < list.len()
        invariant
            i <= list@.len(),
            forall|j: int| 0 <= j < i ==> list@[j] != c,
        decreases list@.len() - i,
    {
        if list[i] == c {
            return true;
        }
        i += 1;
    }
    false
}

/// Whether the characters rise strictly from each entry to the next.
pub open spec fn chars_ascending(list: Seq<char>) -> bool {
    forall|i: int, j: int| 0 <= i < j < list.len() ==> list[i] < list[j]
}

/// The characters under which an edge leaves a node of `from`, each once,
/// in rising order.
pub fn labels(graph: &Graph, from: &NodeSet) -> (found: Vec<char>)
    ensures
        chars_ascending(found@),
        found@.no_duplicates(),
        forall|c: char| found@.contains(c) <==> inhabited(step(graph.edges@, from@, c)),
{
    let mut found: Vec<char> = Vec::new();
    let total = graph.edges.len();
    let mut j: usize = 0;
    while j < total
        invariant
            j <= total,
            total == graph.edges.seq().len(),
            edges_ascending(graph.edges.seq()),
            chars_ascending(found@),
            forall|c: char|
                found@.contains(c) <==> leaves_under(graph.edges.seq(), j as int, from@, c),
        decreases total - j,
    {
        let e = graph.edges.get(j);
        let ghost before = found@;
        let ghost list = graph.edges.seq();
        match e.condition {
            Some(d) => {
                if from.contains(e.from) && !holds_char(&found, d) {
                    found.push(d);
                    proof {
                        lemma_push_set(before, d);
                        assert forall|c: char| found@.contains(c) <==> before.to_set().insert(
                            d,
                        ).contains(c) by {
                            assert(found@.to_set().contains(c) == found@.contains(c));
                        }
                        assert forall|a: int, b: int| 0 <= a < b < found@.len() implies found@[a]
                            < found@[b] by {
                            if b == before.len() {
                                assert(before.contains(before[a]));
                                let i = choose|i: int|
                                    0 <= i < j && i < list.len() && (#[trigger] list[i]).condition
                                        == Some(before[a]) && from@.contains(list[i].from);
                                assert(edge_before(list[i], list[j as int]));
                            } else {
                                assert(before[a] < before[b]);
                            }
                        }
                    }
                }
            },
            None => {},
        }
        proof {
            assert forall|c: char| found@.contains(c) <==> leaves_under(
                list,
                j + 1,
                from@,
                c,
            ) by {
                if leaves_under(list, j + 1, from@, c) {
                    let i = choose|i: int|
                        0 <= i < j + 1 && i < list.len() && (#[trigger] list[i]).condition == Some(
                            c,
                        ) && from@.contains(list[i].from);
                    if i < j {
                        assert(leaves_under(list, j as int, from@, c));
                    }
                }
                if leaves_under(list, j as int, from@, c) {
                    let i = choose|i: int|
                        0 <= i < j && i < list.len() && (#[trigger] list[i]).condition == Some(c)
                            && from@.contains(list[i].from);
                    assert(leaves_under(list, j + 1, from@, c));
                }
                if e.condition == Some(c) && from@.contains(e.from) {
                    assert(list[j as int].condition == Some(c));
                    assert(leaves_under(list, j + 1, from@, c));
                }
            }
        }
        j += 1;
    }
    proof {
        assert forall|c: char| found@.contains(c) <==> inhabited(
            step(graph.edges@, from@, c),
        ) by {
            lemma_leaves_is_step(graph.edges.seq(), from@, c);
        }
        assert forall|a: int, b: int|
            0 <= a < found@.len() && 0 <= b < found@.len() && a != b implies found@[a]
            != found@[b] by {
            if a < b {
                assert(found@[a] < found@[b]);
            } else {
                assert(found@[b] < found@[a]);
            }
        }
    }
    found
}

/// The states of a registry as mathematical values.
pub open spec fn views(registry: Seq<DFANode>) -> Seq<State> {
    registry.map_values(|q: DFANode| q@)
}

/// Whether a state that stands for `nodes` is in the registry.
pub open spec fn registered(registry: Seq<State>, nodes: Set<Node>) -> bool {
    exists|j: int| 0 <= j < registry.len() && (#[trigger] registry[j]).nodes == nodes
}

/// The state that stands for `nodes`: the one in the registry if a state
/// for an equal set was registered before, else a fresh state, which is
/// added to the registry. No set of nodes is ever registered twice.
pub fn new_dfa_node(nodes: NodeSet, graph: &Graph, registry: &mut Vec<DFANode>) -> (state: DFANode)
    ensures
        state@.nodes == nodes@,
        registered(views(old(registry)@), nodes@) ==> final(registry)@ == old(registry)@
            && views(old(registry)@).contains(state@),
        !registered(views(old(registry)@), nodes@) ==> state@ == state_of(graph@, nodes@)
            && views(final(registry)@) == views(old(registry)@).push(state@),
{
    let mut j: usize = 0;
    while j < registry.len()
        invariant
            j <= registry@.len(),
            registry@ == old(registry)@,
            forall|k: int| 0 <= k < j ==> (#[trigger] views(registry@)[k]).nodes != nodes@,
        decreases registry@.len() - j,
    {
        if registry[j].nodes.equals(&nodes) {
            let state = registry[j].clone();
            assert(views(registry@)[j as int] == state@);
            return state;
        }
        assert(views(registry@)[j as int].nodes != nodes@);
        j += 1;
    }
    let state = DFANode::new(nodes, graph);
    registry.push(state.clone());
    assert(views(registry@) =~= views(old(registry)@).push(state@));
    state
}

/// The nodes that a walk from the start node can be in.
pub open spec fn universe(g: Nfa) -> Set<Node> {
    g.edges.map(|e: Edge| e.to).insert(g.start)
}

/// Whether the registry holds, first, the start state and, then, states
/// that the construction meets, each standing for another set.
#[verifier::opaque]
pub open spec fn registry_ok(g: Nfa, registry: Seq<State>) -> bool {
    &&& registry.len() > 0
    &&& registry[0] == state_of(g, set![g.start])
    &&& forall|j: int|
        0 <= j < registry.len() ==> discovered(g, (#[trigger] registry[j]).nodes) && registry[j]
            == state_of(g, registry[j].nodes)
    &&& forall|j: int, k: int|
        0 <= j < k < registry.len() ==> (#[trigger] registry[j]).nodes != (
        #[trigger] registry[k]).nodes
}

/// Whether a transition that leaves `from` under `c` is due: `from` is one
/// of the first `i` states of the registry, or it is state `i` and `c` is
/// one of `done`.
pub open spec fn due(registry: Seq<State>, i: int, done: Set<char>, from: State, c: char) -> bool {
    ||| exists|j: int| 0 <= j < i && j < registry.len() && #[trigger] registry[j] == from
    ||| (0 <= i < registry.len() && from == registry[i] && done.contains(c))
}

/// Whether `found` holds exactly the transitions that are due, and every
/// one of them leads to a registered state.
#[verifier::opaque]
pub open spec fn edges_ok(
    g: Nfa,
    registry: Seq<State>,
    i: int,
    done: Set<char>,
    found: Set<Transition>,
) -> bool {
    &&& forall|t: Transition| #[trigger]
        found.contains(t) ==> is_transition(g, t) && due(registry, i, done, t.from, t.condition)
            && registry.contains(t.to)
    &&& forall|t: Transition|
        #![trigger is_transition(g, t)]
        is_transition(g, t) && due(registry, i, done, t.from, t.condition) ==> found.contains(t)
}

/// What a string reaches stays what it reaches when one more character is
/// followed.
pub proof fn lemma_follow_push(edges: Set<Edge>, from: Set<Node>, s: Seq<char>, c: char)
    ensures
        follow(edges, from, s.push(c)) == step(edges, follow(edges, from, s), c),
{
    assert(s.push(c).drop_last() =~= s);
}

proof fn lemma_discovered_step(g: Nfa, nodes: Set<Node>, c: char)
    requires
        discovered(g, nodes),
        inhabited(step(g.edges, nodes, c)),
    ensures
        discovered(g, step(g.edges, nodes, c)),
{
    let s = choose|s: Seq<char>| follow(g.edges, set![g.start], s) == nodes;
    lemma_follow_push(g.edges, set![g.start], s, c);
}

proof fn lemma_discovered_start(g: Nfa)
    ensures
        discovered(g, set![g.start]),
{
    assert(set![g.start].contains(g.start));
    assert(follow(g.edges, set![g.start], Seq::<char>::empty()) == set![g.start]);
}

proof fn lemma_determinize_begin(g: Nfa, registry: Seq<State>)
    requires
        registry == seq![state_of(g, set![g.start])],
    ensures
        registry_ok(g, registry),
        edges_ok(g, registry, 0, Set::<char>::empty(), Set::<Transition>::empty()),
{
    reveal(registry_ok);
    reveal(edges_ok);
    lemma_discovered_start(g);
}

proof fn lemma_determinize_edge(
    g: Nfa,
    registry: Seq<State>,
    i: int,
    done: Set<char>,
    found: Set<Transition>,
    c: char,
    to: State,
    next: Seq<State>,
)
    requires
        registry_ok(g, registry),
        edges_ok(g, registry, i, done, found),
        0 <= i < registry.len(),
        inhabited(step(g.edges, registry[i].nodes, c)),
        to.nodes == step(g.edges, registry[i].nodes, c),
        registered(registry, to.nodes) ==> next == registry && registry.contains(to),
        !registered(registry, to.nodes) ==> to == state_of(g, to.nodes) && next == registry.push(
            to,
        ),
        !done.contains(c),
    ensures
        !found.contains(Transition { condition: c, from: registry[i], to }),
        registry_ok(g, next),
        edges_ok(
            g,
            next,
            i,
            done.insert(c),
            found.insert(Transition { condition: c, from: registry[i], to }),
        ),
        next[i] == registry[i],
        registry.len() <= next.len(),
{
    let made = Transition { condition: c, from: registry[i], to };
    assert(!found.contains(made)) by {
        reveal(registry_ok);
        reveal(edges_ok);
        if found.contains(made) {
            let j = choose|j: int|
                0 <= j < i && j < registry.len() && #[trigger] registry[j] == made.from;
            assert(registry[j].nodes != registry[i].nodes);
        }
    }
    assert(registry_ok(g, next) && is_transition(g, made) && next.contains(to)) by {
        reveal(registry_ok);
        lemma_discovered_step(g, registry[i].nodes, c);
        if registered(registry, to.nodes) {
            let j = choose|j: int| 0 <= j < registry.len() && registry[j] == to;
            assert(to == state_of(g, to.nodes));
        } else {
            assert forall|j: int| 0 <= j < registry.len() implies (#[trigger] registry[j]).nodes
                != to.nodes by {
                if registry[j].nodes == to.nodes {
                    assert(registered(registry, to.nodes));
                }
            }
            assert(next[registry.len() as int] == to);
        }
    }
    assert forall|j: int| 0 <= j < registry.len() implies next[j] == registry[j] by {}
    let more = found.insert(made);
    assert forall|t: Transition| #[trigger] more.contains(t) implies is_transition(g, t) && due(
        next,
        i,
        done.insert(c),
        t.from,
        t.condition,
    ) && next.contains(t.to) by {
        reveal(edges_ok);
        if t != made {
            assert(found.contains(t));
            let k = choose|k: int| 0 <= k < registry.len() && registry[k] == t.to;
            assert(next[k] == t.to);
            if exists|j: int| 0 <= j < i && j < registry.len() && #[trigger] registry[j] == t.from {
                let j = choose|j: int|
                    0 <= j < i && j < registry.len() && #[trigger] registry[j] == t.from;
                assert(next[j] == t.from);
            }
        }
    }
    assert forall|t: Transition| is_transition(g, t) && due(
        next,
        i,
        done.insert(c),
        t.from,
        t.condition,
    ) implies more.contains(t) by {
        reveal(edges_ok);
        if exists|j: int| 0 <= j < i && j < next.len() && #[trigger] next[j] == t.from {
            let j = choose|j: int| 0 <= j < i && j < next.len() && #[trigger] next[j] == t.from;
            assert(registry[j] == t.from);
            assert(due(registry, i, done, t.from, t.condition));
        } else if t.condition == c {
            assert(t == made);
        } else {
            assert(due(registry, i, done, t.from, t.condition));
        }
    }
    assert(edges_ok(g, next, i, done.insert(c), more)) by {
        reveal(edges_ok);
    }
}

proof fn lemma_determinize_advance(
    g: Nfa,
    registry: Seq<State>,
    i: int,
    done: Set<char>,
    found: Set<Transition>,
)
    requires
        registry_ok(g, registry),
        edges_ok(g, registry, i, done, found),
        0 <= i < registry.len(),
        forall|c: char| done.contains(c) <==> inhabited(step(g.edges, registry[i].nodes, c)),
    ensures
        edges_ok(g, registry, i + 1, Set::<char>::empty(), found),
{
    let none = Set::<char>::empty();
    assert forall|t: Transition| #[trigger] found.contains(t) implies is_transition(g, t) && due(
        registry,
        i + 1,
        none,
        t.from,
        t.condition,
    ) && registry.contains(t.to) by {
        reveal(edges_ok);
        if exists|j: int| 0 <= j < i && j < registry.len() && #[trigger] registry[j] == t.from {
            let j = choose|j: int|
                0 <= j < i && j < registry.len() && #[trigger] registry[j] == t.from;
            assert(j < i + 1 && registry[j] == t.from);
        } else {
            assert(registry[i] == t.from);
        }
    }
    assert forall|t: Transition| is_transition(g, t) && due(
        registry,
        i + 1,
        none,
        t.from,
        t.condition,
    ) implies found.contains(t) by {
        reveal(edges_ok);
        let j = choose|j: int|
            0 <= j < i + 1 && j < registry.len() && #[trigger] registry[j] == t.from;
        if j < i {
            assert(due(registry, i, done, t.from, t.condition));
        } else {
            assert(inhabited(step(g.edges, registry[i].nodes, t.condition)));
            assert(done.contains(t.condition));
            assert(due(registry, i, done, t.from, t.condition));
        }
    }
    assert(edges_ok(g, registry, i + 1, none, found)) by {
        reveal(edges_ok);
    }
}

/// From a set that the construction meets, a transition leaves under every
/// character under which an edge leaves one of its nodes.
pub proof fn lemma_transition_exists(g: Nfa, nodes: Set<Node>, c: char)
    requires
        discovered(g, nodes),
        inhabited(step(g.edges, nodes, c)),
    ensures
        subset_construction(g).edges.contains(
            Transition {
                condition: c,
                from: state_of(g, nodes),
                to: state_of(g, step(g.edges, nodes, c)),
            },
        ),
{
}

proof fn lemma_registered_step(
    g: Nfa,
    registry: Seq<State>,
    found: Set<Transition>,
    before: Set<Node>,
    c: char,
)
    requires
        edges_ok(g, registry, registry.len() as int, Set::<char>::empty(), found),
        registry.contains(state_of(g, before)),
        discovered(g, before),
        inhabited(step(g.edges, before, c)),
    ensures
        registry.contains(state_of(g, step(g.edges, before, c))),
{
    let made = Transition {
        condition: c,
        from: state_of(g, before),
        to: state_of(g, step(g.edges, before, c)),
    };
    lemma_transition_exists(g, before, c);
    assert(is_transition(g, made));
    let j = choose|j: int| 0 <= j < registry.len() && registry[j] == made.from;
    assert(due(registry, registry.len() as int, Set::<char>::empty(), made.from, made.condition));
    reveal(edges_ok);
    assert(found.contains(made));
}

/// Whatever a string reaches from the start node is registered, once every
/// transition that leaves a registered state is found.
proof fn lemma_all_registered(g: Nfa, registry: Seq<State>, found: Set<Transition>, s: Seq<char>)
    requires
        registry_ok(g, registry),
        edges_ok(g, registry, registry.len() as int, Set::<char>::empty(), found),
        inhabited(follow(g.edges, set![g.start], s)),
    ensures
        registry.contains(state_of(g, follow(g.edges, set![g.start], s))),
    decreases s.len(),
{
    if s.len() == 0 {
        reveal(registry_ok);
        assert(registry[0] == state_of(g, set![g.start]));
    } else {
        let before = follow(g.edges, set![g.start], s.drop_last());
        let after = follow(g.edges, set![g.start], s);
        let t = choose|t: Node| after.contains(t);
        let m = choose|m: Node|
            before.contains(m) && g.edges.contains(
                Edge { condition: Some(s.last()), from: m, to: t },
            );
        assert(inhabited(before));
        lemma_all_registered(g, registry, found, s.drop_last());
        assert(discovered(g, before));
        lemma_registered_step(g, registry, found, before, s.last());
    }
}

proof fn lemma_determinize_end(g: Nfa, registry: Seq<State>, found: Set<Transition>)
    requires
        registry_ok(g, registry),
        edges_ok(g, registry, registry.len() as int, Set::<char>::empty(), found),
    ensures
        found == subset_construction(g).edges,
{
    assert forall|t: Transition| is_transition(g, t) implies found.contains(t) by {
        let s = choose|s: Seq<char>| follow(g.edges, set![g.start], s) == t.from.nodes;
        lemma_all_registered(g, registry, found, s);
        let j = choose|j: int| 0 <= j < registry.len() && registry[j] == t.from;
        assert(due(registry, registry.len() as int, Set::<char>::empty(), t.from, t.condition));
        reveal(edges_ok);
    }
    assert forall|t: Transition| found.contains(t) implies is_transition(g, t) by {
        reveal(edges_ok);
    }
    assert(found =~= subset_construction(g).edges);
}

/// Whatever a string reaches from the start node lies in the universe.
pub proof fn lemma_follow_within(g: Nfa, s: Seq<char>)
    ensures
        follow(g.edges, set![g.start], s).subset_of(universe(g)),
{
    let reached = follow(g.edges, set![g.start], s);
    assert forall|t: Node| reached.contains(t) implies universe(g).contains(t) by {
        if s.len() > 0 {
            let before = follow(g.edges, set![g.start], s.drop_last());
            let m = choose|m: Node|
                before.contains(m) && g.edges.contains(
                    Edge { condition: Some(s.last()), from: m, to: t },
                );
            let e = Edge { condition: Some(s.last()), from: m, to: t };
            assert(g.edges.contains(e) && e.to == t);
            assert(g.edges.map(|e: Edge| e.to).contains(t));
        }
    }
}

proof fn lemma_determinize_bound(g: Nfa, registry: Seq<State>)
    requires
        registry_ok(g, registry),
        g.edges.finite(),
    ensures
        registry.len() <= subsets_of(universe(g)).len(),
{
    reveal(registry_ok);
    g.edges.lemma_map_finite(|e: Edge| e.to);
    let names = registry.map_values(|q: State| q.nodes);
    assert forall|j: int| 0 <= j < names.len() implies (#[trigger] names[j]).subset_of(
        universe(g),
    ) by {
        assert(discovered(g, registry[j].nodes));
        let s = choose|s: Seq<char>| follow(g.edges, set![g.start], s) == registry[j].nodes;
        lemma_follow_within(g, s);
    }
    assert forall|j: int, k: int| 0 <= j < names.len() && 0 <= k < names.len() && j != k implies names[j] != names[k] by {
        if j < k {
            assert(registry[j].nodes != registry[k].nodes);
        } else {
            assert(registry[k].nodes != registry[j].nodes);
        }
    }
    lemma_distinct_subsets_bounded(names, universe(g));
}

/// Builds the deterministic automaton of `graph` by subset construction.
/// Epsilon edges are not followed: the graph is meant to have none.
///
/// The registry is seeded with the state of the start node. Each
/// registered state is taken up once: for every character under which an
/// edge leaves one of its nodes, the set of all targets is canonicalized
/// with `new_dfa_node` and a transition to its state is recorded. The
/// registry never holds two states for one set, so it cannot outgrow the
/// number of subsets of the graph's nodes, and the work ends.
pub fn determinize(graph: &Graph) -> (dfa: DFA)
    ensures
        dfa@ == subset_construction(graph@),
        transitions_ascending(dfa.edges@),
        dfa@.deterministic(),
        graph@.epsilon_free() ==> forall|s: Seq<char>| #[trigger]
            dfa@.accepts(s) == graph@.accepts(s),
{
    let mut first = NodeSet::new();
    first.insert(graph.start);
    let start = DFANode::new(first, graph);
    let mut registry: Vec<DFANode> = Vec::new();
    registry.push(start.clone());
    let mut dfa = DFA::new(start);
    let mut i: usize = 0;
    proof {
        assert(first@ =~= set![graph.start]);
        assert(views(registry@) =~= seq![state_of(graph@, set![graph.start])]);
        lemma_determinize_begin(graph@, views(registry@));
        vstd::seq_lib::seq_to_set_is_finite(graph.edges.seq());
    }
    while i < registry.len()
        invariant
            i <= registry@.len(),
            graph.edges@.finite(),
            dfa@.start == state_of(graph@, set![graph.start]),
            transitions_ascending(dfa.edges@),
            registry_ok(graph@, views(registry@)),
            edges_ok(graph@, views(registry@), i as int, Set::<char>::empty(), dfa@.edges),
        decreases subsets_of(universe(graph@)).len() - i,
    {
        proof {
            lemma_determinize_bound(graph@, views(registry@));
        }
        let current = registry[i].clone();
        let found = labels(graph, &current.nodes);
        let mut k: usize = 0;
        proof {
            lemma_prefix_ends(found@);
        }
        while k < found.len()
            invariant
                k <= found@.len(),
                i < registry@.len(),
                graph.edges@.finite(),
                views(registry@)[i as int] == current@,
                dfa@.start == state_of(graph@, set![graph.start]),
                transitions_ascending(dfa.edges@),
                found@.no_duplicates(),
                forall|c: char|
                    found@.contains(c) <==> inhabited(step(graph.edges@, current@.nodes, c)),
                registry_ok(graph@, views(registry@)),
                edges_ok(
                    graph@,
                    views(registry@),
                    i as int,
                    found@.subrange(0, k as int).to_set(),
                    dfa@.edges,
                ),
            decreases found@.len() - k,
        {
            let c = char_at(&found, k);
            assert(found@.contains(c));
            let reached = successors(graph, &current.nodes, c);
            let ghost before = views(registry@);
            let to = new_dfa_node(reached, graph, &mut registry);
            let edge = DFAEdge { condition: c, from: current.clone(), to };
            proof {
                lemma_prefix_lacks_next(found@, k as int);
                lemma_determinize_edge(
                    graph@,
                    before,
                    i as int,
                    found@.subrange(0, k as int).to_set(),
                    dfa@.edges,
                    c,
                    edge.to@,
                    views(registry@),
                );
                lemma_prefix_grows(found@, k as int);
            }
            dfa.add_edge(edge);
            k += 1;
        }
        proof {
            lemma_prefix_ends(found@);
            assert forall|c: char| found@.to_set().contains(c) <==> inhabited(
                step(graph.edges@, views(registry@)[i as int].nodes, c),
            ) by {
                assert(found@.to_set().contains(c) == found@.contains(c));
            }
            lemma_determinize_advance(
                graph@,
                views(registry@),
                i as int,
                found@.to_set(),
                dfa@.edges,
            );
            lemma_determinize_bound(graph@, views(registry@));
        }
        i += 1;
    }
    proof {
        lemma_determinize_end(graph@, views(registry@), dfa@.edges);
        if graph@.epsilon_free() {
            assert forall|s: Seq<char>| #[trigger] dfa@.accepts(s) == graph@.accepts(s) by {
                lemma_subset_construction_keeps_language(graph@, s);
            }
        }
    }
    dfa
}

} // verus!
