//! Automaton states: integer identities issued by an allocator.

use vstd::prelude::*;

verus! {

/// The identity of an automaton state. Two nodes are the same state exactly
/// when their identities are equal; nodes are ordered by identity.
#[derive(PartialEq, Eq, Structural, PartialOrd, Ord, Debug, Clone, Copy, Hash)]
pub struct Node {
    pub id: usize,
}

/// The owner of node existence: every node in use was issued by one allocator,
/// and the allocator issues the identities `0, 1, 2, ...` in this order.
pub struct NodeAllocator {
    pub nodes: Vec<Node>,
}

impl NodeAllocator {
    /// Every issued node sits at the index that is its identity.
    pub open spec fn wf(&self) -> bool {
        forall|i: int| 0 <= i < self.nodes@.len() ==> (#[trigger] self.nodes@[i]).id == i
    }

    /// The number of nodes issued so far, which is also the next identity.
    pub open spec fn count(&self) -> nat {
        self.nodes@.len()
    }

    /// An allocator that has issued no node yet.
    pub fn new() -> (alloc: NodeAllocator)
        ensures
            alloc.wf(),
            alloc.count() == 0,
    {
        NodeAllocator { nodes: Vec::new() }
    }

    /// The number of nodes issued so far.
    pub fn len(&self) -> (n: usize)
        ensures
            n == self.count(),
    {
        self.nodes.len()
    }
}

impl Node {
    /// Issues a fresh node: its identity is the number of nodes issued before.
    pub fn new(alloc: &mut NodeAllocator) -> (node: Node)
        ensures
            old(alloc).wf() ==> final(alloc).wf(),
            node.id == old(alloc).count(),
            final(alloc).count() == old(alloc).count() + 1,
            final(alloc).nodes@ == old(alloc).nodes@.push(node),
    {
        let id: usize = alloc.nodes.len();
        let node = Node { id };
        alloc.nodes.push(node);
        node
    }
}

/// Whether the identities in `s` rise strictly from each entry to the next.
pub open spec fn ascending(s: Seq<Node>) -> bool {
    forall|i: int, j: int| 0 <= i < j < s.len() ==> s[i].id < s[j].id
}

/// Two strictly rising sequences that hold the same nodes are the same
/// sequence.
pub proof fn lemma_ascending_unique(a: Seq<Node>, b: Seq<Node>)
    requires
        ascending(a),
        ascending(b),
        a.to_set() == b.to_set(),
    ensures
        a == b,
    decreases a.len(),
{
    if a.len() == 0 {
        if b.len() > 0 {
            assert(b.to_set().contains(b[0]));
            assert(a.contains(b[0]));
        }
        assert(a =~= b);
    } else {
        let x = a.last();
        assert(a.to_set().contains(x));
        assert(b.contains(x));
        let k = choose|k: int| 0 <= k < b.len() && b[k] == x;
        if k != b.len() - 1 {
            let y = b.last();
            assert(b.to_set().contains(y));
            assert(a.contains(y));
            let m = choose|m: int| 0 <= m < a.len() && a[m] == y;
            assert(b[k].id < b[b.len() - 1].id);
            assert(m == a.len() - 1 || a[m].id < a[a.len() - 1].id);
            assert(false);
        }
        let a0 = a.drop_last();
        let b0 = b.drop_last();
        assert forall|n: Node| a0.to_set().contains(n) == b0.to_set().contains(n) by {
            if a0.contains(n) {
                let i = choose|i: int| 0 <= i < a0.len() && a0[i] == n;
                assert(a[i] == n);
                assert(a.to_set().contains(n));
                assert(b.contains(n));
                let j = choose|j: int| 0 <= j < b.len() && b[j] == n;
                assert(a[i].id < a[a.len() - 1].id);
                assert(b0[j] == n);
            }
            if b0.contains(n) {
                let i = choose|i: int| 0 <= i < b0.len() && b0[i] == n;
                assert(b[i] == n);
                assert(b.to_set().contains(n));
                assert(a.contains(n));
                let j = choose|j: int| 0 <= j < a.len() && a[j] == n;
                assert(b[i].id < b[b.len() - 1].id);
                assert(a0[j] == n);
            }
        }
        assert(a0.to_set() =~= b0.to_set());
        lemma_ascending_unique(a0, b0);
        assert(a =~= a0.push(x));
        assert(b =~= b0.push(x));
    }
}

/// The order of lists of nodes: by the first entry in which they differ,
/// and a list before every list that it begins.
pub open spec fn nodes_before(a: Seq<Node>, b: Seq<Node>) -> bool
    decreases a.len(),
{
    if b.len() == 0 {
        false
    } else if a.len() == 0 {
        true
    } else if a[0].id != b[0].id {
        a[0].id < b[0].id
    } else {
        nodes_before(a.drop_first(), b.drop_first())
    }
}

/// No list comes before itself.
pub proof fn lemma_nodes_before_itself(a: Seq<Node>)
    ensures
        !nodes_before(a, a),
    decreases a.len(),
{
    if a.len() > 0 {
        lemma_nodes_before_itself(a.drop_first());
    }
}

/// Of two lists that differ, one comes before the other.
pub proof fn lemma_nodes_before_total(a: Seq<Node>, b: Seq<Node>)
    ensures
        a == b || nodes_before(a, b) || nodes_before(b, a),
    decreases a.len(),
{
    if a.len() == 0 || b.len() == 0 {
        if a.len() == 0 && b.len() == 0 {
            assert(a =~= b);
        }
    } else if a[0].id == b[0].id {
        lemma_nodes_before_total(a.drop_first(), b.drop_first());
        if a.drop_first() == b.drop_first() {
            assert(a =~= seq![a[0]] + a.drop_first());
            assert(b =~= seq![b[0]] + b.drop_first());
        }
    }
}

/// What comes before a list comes before all that the list comes before.
pub proof fn lemma_nodes_before_chain(a: Seq<Node>, b: Seq<Node>, c: Seq<Node>)
    requires
        nodes_before(a, b),
        nodes_before(b, c),
    ensures
        nodes_before(a, c),
    decreases a.len(),
{
    if a.len() > 0 && a[0].id == b[0].id && b[0].id == c[0].id {
        lemma_nodes_before_chain(a.drop_first(), b.drop_first(), c.drop_first());
    }
}

/// A finite set of nodes, kept in rising order of identity, each node once.
#[derive(Debug, PartialEq, Eq)]
pub struct NodeSet {
    items: Vec<Node>,
}

impl View for NodeSet {
    type V = Set<Node>;

    open spec fn view(&self) -> Set<Node> {
        self.seq().to_set()
    }
}

impl NodeSet {
    #[verifier::type_invariant]
    spec fn sorted(&self) -> bool {
        ascending(self.items@)
    }

    /// The members in the order in which they are stored and handed out.
    pub closed spec fn seq(&self) -> Seq<Node> {
        self.items@
    }

    /// The empty set.
    pub fn new() -> (set: NodeSet)
        ensures
            set@ == Set::<Node>::empty(),
            set.seq() == Seq::<Node>::empty(),
    {
        let set = NodeSet { items: Vec::new() };
        assert(set.seq().to_set() =~= Set::<Node>::empty());
        set
    }

    /// The number of members. The stored order is strictly rising, so no
    /// member is stored twice.
    pub fn len(&self) -> (n: usize)
        ensures
            n == self.seq().len(),
            n == self@.len(),
            ascending(self.seq()),
            self.seq().no_duplicates(),
    {
        proof {
            use_type_invariant(self);
            self.items@.unique_seq_to_set();
        }
        self.items.len()
    }

    /// The member at position `i` of the stored order.
    pub fn get(&self, i: usize) -> (node: Node)
        requires
            i < self.seq().len(),
        ensures
            node == self.seq()[i as int],
            self@.contains(node),
    {
        self.items[i]
    }

    /// Whether `node` is a member.
    pub fn contains(&self, node: Node) -> (found: bool)
        ensures
            found == self@.contains(node),
    {
        let mut i: usize = 0;
        while i < self.items.len()
            invariant
                i <= self.items@.len(),
                forall|j: int| 0 <= j < i ==> self.items@[j] != node,
            decreases self.items@.len() - i,
        {
            if self.items[i].id == node.id {
                return true;
            }
            i += 1;
        }
        false
    }

    /// Adds `node`; tells whether it was absent before.
    pub fn insert(&mut self, node: Node) -> (added: bool)
        ensures
            final(self)@ == old(self)@.insert(node),
            added == !old(self)@.contains(node),
            final(self)@.len() == old(self)@.len() + (if added {
                1nat
            } else {
                0nat
            }),
    {
        proof {
            use_type_invariant(&*self);
            vstd::seq_lib::seq_to_set_is_finite(self.items@);
        }
        let mut i: usize = 0;
        while i < self.items.len() && self.items[i].id < node.id
            invariant
                i <= self.items@.len(),
                forall|j: int| 0 <= j < i ==> self.items@[j].id < node.id,
            decreases self.items@.len() - i,
        {
            i += 1;
        }
        if i < self.items.len() && self.items[i].id == node.id {
            assert(self.items@[i as int] == node);
            assert(self.seq().to_set().insert(node) =~= self.seq().to_set());
            return false;
        }
        let ghost before = self.items@;
        assert(!before.contains(node)) by {
            if before.contains(node) {
                let k = choose|k: int| 0 <= k < before.len() && before[k] == node;
                if k > i {
                    assert(before[i as int].id < before[k].id);
                }
            }
        }
        let mut items: Vec<Node> = Vec::new();
        core::mem::swap(&mut items, &mut self.items);
        items.insert(i, node);
        proof {
            let after = items@;
            assert(after == before.insert(i as int, node));
            assert forall|a: int, b: int| 0 <= a < b < after.len() implies after[a].id
                < after[b].id by {
                if a < i && b > i {
                    assert(after[a] == before[a]);
                    assert(after[b] == before[b - 1]);
                    if b - 1 > i {
                        assert(before[i as int].id < before[b - 1].id);
                    }
                } else if a < i && b < i {
                } else if a < i && b == i {
                } else if a == i {
                    assert(after[b] == before[b - 1]);
                    if b - 1 > i {
                        assert(before[i as int].id < before[b - 1].id);
                    }
                } else {
                    assert(after[a] == before[a - 1]);
                    assert(after[b] == before[b - 1]);
                }
            }
            assert forall|n: Node| after.to_set().contains(n) == before.to_set().insert(
                node,
            ).contains(n) by {
                if after.contains(n) {
                    let k = choose|k: int| 0 <= k < after.len() && after[k] == n;
                    if k < i {
                        assert(before[k] == n);
                    } else if k > i {
                        assert(before[k - 1] == n);
                    }
                }
                if before.contains(n) {
                    let k = choose|k: int| 0 <= k < before.len() && before[k] == n;
                    if k < i {
                        assert(after[k] == n);
                    } else {
                        assert(after[k + 1] == n);
                    }
                }
                if n == node {
                    assert(after[i as int] == n);
                }
            }
            assert(after.to_set() =~= before.to_set().insert(node));
        }
        self.items = items;
        true
    }

    /// The members in rising order.
    pub fn to_vec(&self) -> (list: Vec<Node>)
        ensures
            list@ == self.seq(),
    {
        let list = self.items.clone();
        assert(list@ =~= self.items@);
        list
    }

    /// Whether the two sets share a node.
    pub fn intersects(&self, other: &NodeSet) -> (shared: bool)
        ensures
            shared == !self@.disjoint(other@),
    {
        let mut i: usize = 0;
        while i < self.items.len()
            invariant
                i <= self.items@.len(),
                forall|j: int| 0 <= j < i ==> !other@.contains(self.items@[j]),
            decreases self.items@.len() - i,
        {
            if other.contains(self.items[i]) {
                assert(self@.contains(self.items@[i as int]));
                return true;
            }
            i += 1;
        }
        assert forall|n: Node| !(self@.contains(n) && other@.contains(n)) by {
            if self@.contains(n) {
                let k = choose|k: int| 0 <= k < self.items@.len() && self.items@[k] == n;
            }
        }
        false
    }

    /// Whether this set comes before `other` in the order of sets: by the
    /// least node that only one of them holds before the other goes on.
    pub fn before(&self, other: &NodeSet) -> (first: bool)
        ensures
            first == nodes_before(self.seq(), other.seq()),
    {
        let mut i: usize = 0;
        assert(self.items@.subrange(0, self.items@.len() as int) =~= self.items@);
        assert(other.items@.subrange(0, other.items@.len() as int) =~= other.items@);
        while i < self.items.len() && i < other.items.len()
            invariant
                i <= self.items@.len(),
                i <= other.items@.len(),
                nodes_before(self.items@, other.items@) == nodes_before(
                    self.items@.subrange(i as int, self.items@.len() as int),
                    other.items@.subrange(i as int, other.items@.len() as int),
                ),
            decreases self.items@.len() - i,
        {
            let ghost a = self.items@.subrange(i as int, self.items@.len() as int);
            let ghost b = other.items@.subrange(i as int, other.items@.len() as int);
            assert(a[0] == self.items@[i as int]);
            assert(b[0] == other.items@[i as int]);
            if self.items[i].id != other.items[i].id {
                return self.items[i].id < other.items[i].id;
            }
            assert(a.drop_first() =~= self.items@.subrange(i + 1, self.items@.len() as int));
            assert(b.drop_first() =~= other.items@.subrange(i + 1, other.items@.len() as int));
            i += 1;
        }
        i < other.items.len()
    }

    /// Whether both sets hold the same nodes; sets that do are stored
    /// alike.
    pub fn equals(&self, other: &NodeSet) -> (same: bool)
        ensures
            same == (self@ == other@),
            same == (self.seq() == other.seq()),
    {
        proof {
            use_type_invariant(self);
            use_type_invariant(other);
        }
        if self.items.len() != other.items.len() {
            proof {
                if self@ == other@ {
                    lemma_ascending_unique(self.items@, other.items@);
                }
            }
            return false;
        }
        let mut i: usize = 0;
        while i < self.items.len()
            invariant
                i <= self.items@.len(),
                self.items@.len() == other.items@.len(),
                ascending(self.items@),
                ascending(other.items@),
                forall|j: int| 0 <= j < i ==> self.items@[j] == other.items@[j],
            decreases self.items@.len() - i,
        {
            if self.items[i].id != other.items[i].id {
                proof {
                    if self@ == other@ {
                        lemma_ascending_unique(self.items@, other.items@);
                    }
                }
                return false;
            }
            i += 1;
        }
        assert(self.items@ =~= other.items@);
        true
    }
}

impl Clone for NodeSet {
    fn clone(&self) -> (copy: NodeSet)
        ensures
            copy@ == self@,
            copy.seq() == self.seq(),
    {
        proof {
            use_type_invariant(self);
        }
        let items = self.items.clone();
        assert(items@ =~= self.items@);
        NodeSet { items }
    }
}

} // verus!
