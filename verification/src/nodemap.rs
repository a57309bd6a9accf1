//! The node arena: the nodes of a document held in instance order, looked
//! up by identifier.

use vstd::prelude::*;
use crate::node::Node;

verus! {

/// The position of the first node carrying `id` in `s[i..]`, or the length
/// of `s` when there is none.
pub open spec fn spec_find_id(s: Seq<Node>, id: u64, i: int) -> int
    decreases s.len() - i,
{
    if i < 0 || i >= s.len() {
        s.len() as int
    } else if s[i].id == id {
        i
    } else {
        spec_find_id(s, id, i + 1)
    }
}

/// What the find position means: it is in range, carries the identifier
/// unless it is the length, and no earlier position does.
pub proof fn lemma_find_id(s: Seq<Node>, id: u64, i: int)
    requires
        0 <= i <= s.len(),
    ensures
        i <= spec_find_id(s, id, i) <= s.len(),
        spec_find_id(s, id, i) < s.len() ==> s[spec_find_id(s, id, i)].id == id,
        forall|j: int| i <= j < spec_find_id(s, id, i) ==> s[j].id != id,
    decreases s.len() - i,
{
    if i < s.len() && s[i].id != id {
        lemma_find_id(s, id, i + 1);
    }
}

/// A position carrying the identifier bounds the find position.
pub proof fn lemma_find_id_bound(s: Seq<Node>, id: u64, p: int)
    requires
        0 <= p < s.len(),
        s[p].id == id,
    ensures
        spec_find_id(s, id, 0) <= p,
{
    lemma_find_id(s, id, 0);
    if spec_find_id(s, id, 0) > p {
        assert(s[p].id != id);
    }
}

/// The arena holding every node of a document, in instance order.
pub struct NodeMap {
    entries: Vec<Node>,
}

impl View for NodeMap {
    type V = Seq<Node>;

    closed spec fn view(&self) -> Seq<Node> {
        self.entries@
    }
}

impl NodeMap {
    /// An empty arena.
    pub fn new() -> (r: NodeMap)
        ensures
            r@.len() == 0,
    {
        NodeMap { entries: Vec::new() }
    }

    /// How many nodes the arena holds.
    pub fn len(&self) -> (n: usize)
        ensures
            n == self@.len(),
    {
        self.entries.len()
    }

    /// The identifiers of the stored nodes, in instance order.
    pub fn keys(&self) -> (r: Vec<u64>)
        ensures
            r@.len() == self@.len(),
            forall|i: int| 0 <= i < r@.len() ==> r@[i] == self@[i].id,
    {
        let mut out: Vec<u64> = Vec::new();
        let mut i: usize = 0;
        while i < self.entries.len()
            invariant
                0 <= i <= self@.len(),
                out@.len() == i,
                forall|j: int| 0 <= j < i ==> out@[j] == self@[j].id,
            decreases self@.len() - i,
        {
            out.push(self.entries[i].id);
            i = i + 1;
        }
        out
    }

    /// The position of the node carrying `id`, or nothing.
    pub fn position_of(&self, id: u64) -> (r: Option<usize>)
        ensures
            match r {
                Some(p) => p == spec_find_id(self@, id, 0) && p < self@.len() && self@[
                    p as int
                ].id == id,
                None => spec_find_id(self@, id, 0) == self@.len(),
            },
    {
        let mut i: usize = 0;
        while i < self.entries.len()
            invariant
                0 <= i <= self@.len(),
                forall|j: int| 0 <= j < i ==> self@[j].id != id,
            decreases self@.len() - i,
        {
            if self.entries[i].id == id {
                proof {
                    lemma_find_skip_id(self@, id, i as int);
                }
                return Some(i);
            }
            i = i + 1;
        }
        proof {
            lemma_find_skip_id(self@, id, self@.len() as int);
        }
        None
    }

    /// The node at a position.
    pub fn at(&self, i: usize) -> (r: &Node)
        requires
            i < self@.len(),
        ensures
            *r == self@[i as int],
    {
        &self.entries[i]
    }

    /// Replaces the node at a position.
    pub fn set_at(&mut self, i: usize, n: Node)
        requires
            i < old(self)@.len(),
        ensures
            final(self)@ == old(self)@.update(i as int, n),
    {
        self.entries.set(i, n);
    }

    /// Appends a node.
    pub fn push(&mut self, n: Node)
        ensures
            final(self)@ == old(self)@.push(n),
    {
        self.entries.push(n);
    }

    /// Inserts a node at a position, shifting the tail right.
    pub fn insert_at(&mut self, i: usize, n: Node)
        requires
            i <= old(self)@.len(),
        ensures
            final(self)@ == old(self)@.insert(i as int, n),
    {
        self.entries.insert(i, n);
    }

    /// Removes the node at a position, shifting the tail left.
    pub fn remove_at(&mut self, i: usize) -> (r: Node)
        requires
            i < old(self)@.len(),
        ensures
            r == old(self)@[i as int],
            final(self)@ == old(self)@.remove(i as int),
    {
        self.entries.remove(i)
    }
}

/// Skipping positions that do not carry the identifier leaves the find
/// position alone.
pub proof fn lemma_find_skip_id(s: Seq<Node>, id: u64, j: int)
    requires
        0 <= j <= s.len(),
        forall|i: int| 0 <= i < j ==> s[i].id != id,
    ensures
        spec_find_id(s, id, 0) == spec_find_id(s, id, j),
    decreases j,
{
    lemma_find_skip_id_step(s, id, 0, j);
}

proof fn lemma_find_skip_id_step(s: Seq<Node>, id: u64, lo: int, j: int)
    requires
        0 <= lo <= j <= s.len(),
        forall|i: int| lo <= i < j ==> s[i].id != id,
    ensures
        spec_find_id(s, id, lo) == spec_find_id(s, id, j),
    decreases j - lo,
{
    if lo < j {
        lemma_find_skip_id_step(s, id, lo + 1, j);
    }
}


impl NodeMap {
    /// Appends an identifier to the child list of the node at a position.
    pub fn push_child(&mut self, i: usize, cid: u64)
        requires
            i < old(self)@.len(),
        ensures
            final(self)@.len() == old(self)@.len(),
            final(self)@[i as int].childs@ == old(self)@[i as int].childs@.push(cid),
            final(self)@[i as int].root == old(self)@[i as int].root,
            final(self)@[i as int].kind == old(self)@[i as int].kind,
            final(self)@[i as int].parent == old(self)@[i as int].parent,
            final(self)@[i as int].key == old(self)@[i as int].key,
            final(self)@[i as int].value == old(self)@[i as int].value,
            final(self)@[i as int].id == old(self)@[i as int].id,
            final(self)@[i as int].opened == old(self)@[i as int].opened,
            final(self)@[i as int].instance == old(self)@[i as int].instance,
            forall|j: int| 0 <= j < old(self)@.len() && j != i ==> final(self)@[j] == old(self)@[j],
    {
        let n = &self.entries[i];
        let mut childs = crate::doc::clone_ids(&n.childs);
        childs.push(cid);
        let updated = Node {
            root: n.root,
            kind: n.kind,
            parent: n.parent,
            childs,
            key: n.key,
            value: n.value,
            id: n.id,
            opened: n.opened,
            instance: n.instance,
        };
        self.entries.set(i, updated);
    }

    /// Closes the node at a position, rewriting its value upper bound.
    pub fn close_at(&mut self, i: usize, v1: usize)
        requires
            i < old(self)@.len(),
        ensures
            final(self)@.len() == old(self)@.len(),
            final(self)@[i as int].childs@ == old(self)@[i as int].childs@,
            final(self)@[i as int].root == old(self)@[i as int].root,
            final(self)@[i as int].kind == old(self)@[i as int].kind,
            final(self)@[i as int].parent == old(self)@[i as int].parent,
            final(self)@[i as int].key == old(self)@[i as int].key,
            final(self)@[i as int].value[0] == old(self)@[i as int].value[0],
            final(self)@[i as int].value[1] == v1,
            final(self)@[i as int].id == old(self)@[i as int].id,
            final(self)@[i as int].opened == false,
            final(self)@[i as int].instance == old(self)@[i as int].instance,
            forall|j: int| 0 <= j < old(self)@.len() && j != i ==> final(self)@[j] == old(self)@[j],
    {
        let n = &self.entries[i];
        let childs = crate::doc::clone_ids(&n.childs);
        let updated = Node {
            root: n.root,
            kind: n.kind,
            parent: n.parent,
            childs,
            key: n.key,
            value: [n.value[0], v1],
            id: n.id,
            opened: n.opened,
            instance: n.instance,
        };
        let updated = Node { opened: false, ..updated };
        self.entries.set(i, updated);
    }
}


/// Two arenas whose nodes carry the same identifiers have the same find
/// positions.
pub proof fn lemma_find_id_same_ids(s1: Seq<Node>, s2: Seq<Node>, id: u64, i: int)
    requires
        s1.len() == s2.len(),
        forall|j: int| 0 <= j < s1.len() ==> s1[j].id == s2[j].id,
        0 <= i <= s1.len(),
    ensures
        spec_find_id(s1, id, i) == spec_find_id(s2, id, i),
    decreases s1.len() - i,
{
    if i < s1.len() && s1[i].id != id {
        lemma_find_id_same_ids(s1, s2, id, i + 1);
    }
}

/// Appending a node moves the find position of an absent identifier and
/// leaves that of a present one alone.
pub proof fn lemma_find_id_push(s: Seq<Node>, x: Node, id: u64, i: int)
    requires
        0 <= i <= s.len(),
    ensures
        spec_find_id(s, id, i) < s.len() ==> spec_find_id(s.push(x), id, i) == spec_find_id(
            s,
            id,
            i,
        ),
        spec_find_id(s, id, i) == s.len() && x.id == id ==> spec_find_id(s.push(x), id, i)
            == s.len(),
        spec_find_id(s, id, i) == s.len() && x.id != id ==> spec_find_id(s.push(x), id, i)
            == s.len() + 1,
    decreases s.len() - i,
{
    if i == s.len() {
        assert(s.push(x).len() == s.len() + 1);
        assert(s.push(x)[i] == x);
        if x.id != id {
            assert(spec_find_id(s.push(x), id, i + 1) == s.len() + 1);
        }
    } else if s[i].id == id {
        assert(s.push(x)[i] == s[i]);
    } else {
        assert(s.push(x)[i] == s[i]);
        lemma_find_id_push(s, x, id, i + 1);
    }
}

/// Membership in a sequence of identifiers survives an append, and an
/// append adds only the appended identifier.
pub proof fn lemma_ids_contains_push(s: Seq<u64>, x: u64, y: u64)
    ensures
        s.contains(y) ==> s.push(x).contains(y),
        s.push(x).contains(y) ==> y == x || s.contains(y),
{
    if s.contains(y) {
        let w = choose|w: int| 0 <= w < s.len() && s[w] == y;
        assert(s.push(x)[w] == y);
    }
    if s.push(x).contains(y) {
        let w = choose|w: int| 0 <= w < s.push(x).len() && s.push(x)[w] == y;
        if w < s.len() {
            assert(s[w] == y);
        } else {
            assert(y == x);
        }
    }
}


impl NodeMap {
    /// Wraps a ready node list as an arena.
    pub fn from_vec(v: Vec<Node>) -> (r: NodeMap)
        ensures
            r@ == v@,
    {
        NodeMap { entries: v }
    }
}

} // verus!
