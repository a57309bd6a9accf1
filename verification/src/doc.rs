//! The document value: the cleaned text buffer, the node arena, the
//! instance order and the key index, together with the invariant that ties
//! them to one another.

use vstd::prelude::*;
use crate::cache::CacheEntry;
use crate::cache::KeyCache;
use crate::cache::spec_cache_find;
use crate::chars::chars_to_string;
use crate::node::Node;
use crate::node::Vertex;
use crate::nodemap::NodeMap;
use crate::nodemap::lemma_find_id;
use crate::nodemap::lemma_find_id_bound;
use crate::nodemap::spec_find_id;

verus! {

/// The failures an operation can report. Every error leaves the document as
/// it stood before the call.
#[derive(PartialEq, Eq, Structural, Clone, Copy, Debug)]
pub enum HsonError {
    /// The text cannot be read as a document; the payload is the character
    /// position or instance the reader stopped at.
    MalformedInput(usize),
    /// An identifier that no node of the document carries.
    UnknownIdentifier(u64),
    /// A child position that names a prior sibling which does not exist.
    BadPosition(usize),
    /// The fragment handed to an insertion cannot be read as a document.
    FragmentError,
}

/// The document: a cleaned character buffer, a node arena in instance
/// order, the identifier order, and a key index over the arena.
pub struct Hson {
    pub data: Vec<char>,
    pub nodes: NodeMap,
    pub indexes: Vec<u64>,
    pub instances: u64,
    pub base: u64,
    pub id_count: u64,
    pub cache: KeyCache,
    pub iter_count: usize,
}

impl Hson {
    /// The cleaned text the document stands for.
    pub open spec fn buffer(self) -> Seq<char> {
        self.data@
    }

    /// The instance number the document starts counting above.
    pub open spec fn spec_base(self) -> u64 {
        self.base
    }

    /// The running instance counter.
    pub open spec fn spec_instances(self) -> u64 {
        self.instances
    }

    /// The highest identifier handed out so far.
    pub open spec fn spec_id_count(self) -> u64 {
        self.id_count
    }

    /// The key index, as the sequence of its entries.
    pub open spec fn cache_view(self) -> Seq<CacheEntry> {
        self.cache.entries@
    }

    /// The iteration cursor.
    pub open spec fn spec_iter_count(self) -> usize {
        self.iter_count
    }

    /// How many nodes the document holds.
    pub open spec fn node_count(self) -> nat {
        self.nodes@.len()
    }

    /// The position of the node carrying `id` in the arena, or the node
    /// count when there is none.
    pub open spec fn pos_of(self, id: u64) -> int {
        spec_find_id(self.nodes@, id, 0)
    }

    /// Whether some node carries `id`.
    pub open spec fn has_id(self, id: u64) -> bool {
        exists|i: int| 0 <= i < self.nodes@.len() && self.nodes@[i].id == id
    }

    /// The node carrying `id`.
    pub open spec fn node_of(self, id: u64) -> Node {
        self.nodes@[self.pos_of(id)]
    }

    /// The key text of the node at position `i` of the arena.
    pub open spec fn key_chars_at(self, i: int) -> Seq<char> {
        self.buffer().subrange(self.nodes@[i].key[0] as int, self.nodes@[i].key[1] as int)
    }

    /// The value text of the node at position `i` of the arena.
    pub open spec fn value_chars_at(self, i: int) -> Seq<char> {
        self.buffer().subrange(self.nodes@[i].value[0] as int, self.nodes@[i].value[1] as int)
    }

    /// A node's ranges lie inside the buffer.
    pub open spec fn ranges_ok(self, n: Node) -> bool {
        &&& n.key[0] <= n.key[1] <= self.buffer().len()
        &&& n.value[0] <= n.value[1] <= self.buffer().len()
    }

    /// What holds of the node at position `i`: it stands in the identifier
    /// order under its own identifier, carries the instance its position
    /// says, is closed, has its ranges inside the buffer, and is tied to
    /// its parent and children.
    pub open spec fn wf_node_at(self, i: int) -> bool {
        let n = self.nodes@[i];
        &&& n.id == self.indexes@[i]
        &&& 1 <= n.id <= self.spec_id_count()
        &&& n.instance == self.spec_base() + i + 1
        &&& !n.opened
        &&& self.ranges_ok(n)
        &&& (n.root <==> i == 0)
        &&& (i == 0 ==> n.parent == 0)
        &&& (i > 0 ==> self.parent_ok(i))
        &&& self.childs_ok(i)
    }

    /// A non-root node's parent stands earlier in the arena and lists the
    /// node among its children.
    pub open spec fn parent_ok(self, i: int) -> bool {
        let p = self.pos_of(self.nodes@[i].parent);
        &&& 0 <= p < i
        &&& self.nodes@[p].childs@.contains(self.nodes@[i].id)
    }

    /// A node's children stand later in the arena, point back at the node,
    /// and are listed once each.
    pub open spec fn childs_ok(self, i: int) -> bool {
        let cs = self.nodes@[i].childs@;
        &&& forall|j: int|
            0 <= j < cs.len() ==> {
                let c = self.pos_of(#[trigger] cs[j]);
                &&& i < c < self.nodes@.len()
                &&& self.nodes@[c].parent == self.nodes@[i].id
            }
        &&& forall|a: int, b: int| 0 <= a < b < cs.len() ==> cs[a] != cs[b]
    }

    /// No two nodes carry the same identifier.
    pub open spec fn ids_unique(self) -> bool {
        forall|a: int, b: int|
            0 <= a < b < self.nodes@.len() ==> self.nodes@[a].id != self.nodes@[b].id
    }

    /// The arena invariant.
    pub open spec fn wf_arena(self) -> bool {
        &&& self.indexes@.len() == self.nodes@.len()
        &&& self.spec_instances() == self.spec_base() + self.nodes@.len()
        &&& self.ids_unique()
        &&& forall|i: int| 0 <= i < self.nodes@.len() ==> self.wf_node_at(i)
    }

    /// An identifier the key index lists under key `k` names a non-root
    /// node with that very key text.
    pub open spec fn cached_id_ok(self, id: u64, k: Seq<char>) -> bool {
        let p = self.pos_of(id);
        &&& 0 < p < self.node_count()
        &&& self.nodes@[p].key[0] < self.nodes@[p].key[1]
        &&& self.key_chars_at(p) == k
    }

    /// One entry of the key index: a non-empty identifier list, ascending
    /// by arena position, every identifier carrying the entry's key.
    pub open spec fn wf_cache_entry(self, e: int) -> bool {
        let ent = self.cache_view()[e];
        &&& ent.ids@.len() > 0
        &&& forall|a: int, b: int|
            0 <= a < b < ent.ids@.len() ==> self.pos_of(#[trigger] ent.ids@[a]) < self.pos_of(
                #[trigger] ent.ids@[b],
            )
        &&& forall|j: int| 0 <= j < ent.ids@.len() ==> self.cached_id_ok(#[trigger] ent.ids@[j], ent.key@)
    }

    /// The key index lists the node at position `i` under its key text.
    pub open spec fn cache_has_node(self, i: int) -> bool {
        let e = spec_cache_find(self.cache_view(), self.key_chars_at(i), 0);
        &&& e < self.cache_view().len()
        &&& self.cache_view()[e].ids@.contains(self.nodes@[i].id)
    }

    /// The key-index invariant: distinct keys, well-formed entries, and an
    /// entry for every non-root node with a non-empty key.
    pub open spec fn wf_cache(self) -> bool {
        &&& forall|a: int, b: int|
            0 <= a < b < self.cache_view().len() ==> self.cache_view()[a].key@ != self.cache_view()[
                b
            ].key@
        &&& forall|e: int| 0 <= e < self.cache_view().len() ==> self.wf_cache_entry(e)
        &&& forall|i: int|
            1 <= i < self.node_count() && self.nodes@[i].key[0] < self.nodes@[i].key[1]
                ==> self.cache_has_node(i)
    }

    /// The document invariant: every store in step with the others.
    pub open spec fn wf(self) -> bool {
        self.wf_arena() && self.wf_cache()
    }

    /// A document holding nothing yet.
    pub open spec fn fresh(self) -> bool {
        &&& self.node_count() == 0
        &&& self.buffer().len() == 0
        &&& self.indexes@.len() == 0
        &&& self.cache_view().len() == 0
        &&& self.spec_instances() == self.spec_base()
    }

    /// Creates an empty document.
    pub fn new() -> (r: Hson)
        ensures
            r.wf(),
            r.fresh(),
            r.spec_base() == 0,
            r.spec_id_count() == 0,
    {
        Hson {
            data: Vec::new(),
            nodes: NodeMap::new(),
            indexes: Vec::new(),
            instances: 0,
            base: 0,
            id_count: 0,
            cache: KeyCache::new(),
            iter_count: 0,
        }
    }

    /// Creates an empty document whose identifier and instance counters
    /// start at the given values, so a fragment parsed into it numbers its
    /// nodes clear of a host document.
    pub fn new_slice(start_id: u64, start_instance: u64) -> (r: Hson)
        ensures
            r.wf(),
            r.fresh(),
            r.spec_base() == start_instance,
            r.spec_id_count() == start_id,
    {
        Hson {
            data: Vec::new(),
            nodes: NodeMap::new(),
            indexes: Vec::new(),
            instances: start_instance,
            base: start_instance,
            id_count: start_id,
            cache: KeyCache::new(),
            iter_count: 0,
        }
    }

    /// Returns the document text.
    pub fn stringify(&self) -> (r: String)
        ensures
            r@ == self.buffer(),
    {
        chars_to_string(self.data.as_slice())
    }

    /// Returns the root node's identifier.
    pub fn get_root(&self) -> (r: u64)
        requires
            self.indexes@.len() > 0,
        ensures
            r == self.indexes@[0],
    {
        self.indexes[0]
    }

    /// Returns the root node itself.
    pub fn get_root_node(&self) -> (r: Option<&Node>)
        requires
            self.wf(),
            self.node_count() > 0,
        ensures
            r is Some,
            *r->Some_0 == self.nodes@[0],
    {
        let uid = self.get_root();
        proof {
            assert(self.wf_node_at(0));
            self.lemma_pos_of_id(0);
        }
        let p = self.nodes.position_of(uid);
        match p {
            Some(i) => Some(self.nodes.at(i)),
            None => None,
        }
    }

    /// The arena position of a stored identifier is the position of its
    /// node.
    pub proof fn lemma_pos_of_id(self, i: int)
        requires
            self.ids_unique(),
            0 <= i < self.node_count(),
        ensures
            self.pos_of(self.nodes@[i].id) == i,
            self.has_id(self.nodes@[i].id),
    {
        lemma_find_id(self.nodes@, self.nodes@[i].id, 0);
        lemma_find_id_bound(self.nodes@, self.nodes@[i].id, i);
        let p = self.pos_of(self.nodes@[i].id);
        if p < i {
            assert(self.nodes@[p].id != self.nodes@[i].id);
        }
    }

    /// An identifier someone holds is in the arena exactly when the find
    /// position is in range.
    pub proof fn lemma_has_id_find(self, id: u64)
        requires
            self.ids_unique(),
        ensures
            self.has_id(id) <==> self.pos_of(id) < self.node_count(),
            self.has_id(id) ==> 0 <= self.pos_of(id) && self.nodes@[self.pos_of(id)].id == id,
    {
        lemma_find_id(self.nodes@, id, 0);
        if self.has_id(id) {
            let w = choose|i: int| 0 <= i < self.nodes@.len() && self.nodes@[i].id == id;
            lemma_find_id_bound(self.nodes@, id, w);
        }
    }

    /// Materializes a node's key text.
    pub fn get_node_key(&self, node: &Node) -> (r: String)
        requires
            self.ranges_ok(*node),
        ensures
            r@ == self.buffer().subrange(node.key[0] as int, node.key[1] as int),
    {
        let mut out: Vec<char> = Vec::new();
        let start = node.key[0];
        let end = node.key[1];
        let mut i: usize = start;
        while i < end
            invariant
                start <= i <= end <= self.data@.len(),
                out@ == self.data@.subrange(start as int, i as int),
            decreases end - i,
        {
            out.push(self.data[i]);
            proof {
                assert(out@ =~= self.data@.subrange(start as int, i + 1 as int));
            }
            i = i + 1;
        }
        chars_to_string(out.as_slice())
    }

    /// Materializes a node's value text.
    pub fn get_node_value(&self, node: &Node) -> (r: String)
        requires
            self.ranges_ok(*node),
        ensures
            r@ == self.buffer().subrange(node.value[0] as int, node.value[1] as int),
    {
        let mut out: Vec<char> = Vec::new();
        let start = node.value[0];
        let end = node.value[1];
        let mut i: usize = start;
        while i < end
            invariant
                start <= i <= end <= self.data@.len(),
                out@ == self.data@.subrange(start as int, i as int),
            decreases end - i,
        {
            out.push(self.data[i]);
            proof {
                assert(out@ =~= self.data@.subrange(start as int, i + 1 as int));
            }
            i = i + 1;
        }
        chars_to_string(out.as_slice())
    }

    /// Returns a value-type snapshot of a node: its fields with the key and
    /// value texts already materialized. Returns nothing for an unknown
    /// identifier.
    pub fn get_vertex(&self, node_id: u64) -> (r: Option<Vertex>)
        requires
            self.wf(),
        ensures
            match r {
                Some(v) => {
                    let p = self.pos_of(node_id);
                    &&& self.has_id(node_id)
                    &&& v.root == self.nodes@[p].root
                    &&& v.kind == self.nodes@[p].kind
                    &&& v.parent == self.nodes@[p].parent
                    &&& v.childs@ == self.nodes@[p].childs@
                    &&& v.id == node_id
                    &&& v.instance == self.nodes@[p].instance
                    &&& v.key@ == self.key_chars_at(p)
                    &&& v.value@ == self.value_chars_at(p)
                },
                None => !self.has_id(node_id),
            },
    {
        proof {
            self.lemma_has_id_find(node_id);
        }
        match self.nodes.position_of(node_id) {
            Some(i) => {
                let node = self.nodes.at(i);
                proof {
                    assert(self.wf_node_at(i as int));
                }
                let key = self.get_node_key(node);
                let value = self.get_node_value(node);
                let childs = clone_ids(&node.childs);
                proof {
                    self.lemma_pos_of_id(i as int);
                }
                Some(
                    Vertex {
                        root: node.root,
                        kind: node.kind,
                        parent: node.parent,
                        childs,
                        id: node.id,
                        instance: node.instance,
                        key,
                        value,
                    },
                )
            },
            None => {
                proof {
                    if self.has_id(node_id) {
                        self.lemma_has_id_find(node_id);
                    }
                }
                None
            },
        }
    }

    /// Two documents with the same arena stores agree on the arena
    /// invariant.
    pub proof fn lemma_wf_arena_same(a: Hson, b: Hson)
        requires
            a.nodes@ == b.nodes@,
            a.indexes@ == b.indexes@,
            a.buffer() == b.buffer(),
            a.spec_base() == b.spec_base(),
            a.spec_instances() == b.spec_instances(),
            a.spec_id_count() == b.spec_id_count(),
        ensures
            a.wf_arena() <==> b.wf_arena(),
    {
        assert forall|i: int| 0 <= i < a.nodes@.len() implies a.wf_node_at(i) == b.wf_node_at(
            i,
        ) by {
            assert(a.parent_ok(i) == b.parent_ok(i));
            assert(a.childs_ok(i) == b.childs_ok(i));
        }
    }

    /// Two documents with the same stores are well-formed together.
    pub proof fn lemma_wf_same(a: Hson, b: Hson)
        requires
            a.nodes@ == b.nodes@,
            a.indexes@ == b.indexes@,
            a.buffer() == b.buffer(),
            a.cache_view() == b.cache_view(),
            a.spec_base() == b.spec_base(),
            a.spec_instances() == b.spec_instances(),
            a.spec_id_count() == b.spec_id_count(),
        ensures
            a.wf() <==> b.wf(),
            a.wf_arena() <==> b.wf_arena(),
            a.wf_cache() <==> b.wf_cache(),
    {
        assert forall|i: int| 0 <= i < a.nodes@.len() implies a.wf_node_at(i) == b.wf_node_at(
            i,
        ) by {
            assert(a.key_chars_at(i) == b.key_chars_at(i));
            assert(a.parent_ok(i) == b.parent_ok(i));
            assert(a.childs_ok(i) == b.childs_ok(i));
        }
        assert forall|e: int|
            0 <= e < a.cache_view().len() implies a.wf_cache_entry(e) == b.wf_cache_entry(e) by {
            let ent = a.cache_view()[e];
            assert forall|j: int|
                0 <= j < ent.ids@.len() implies a.cached_id_ok(#[trigger] ent.ids@[j], ent.key@)
                    == b.cached_id_ok(ent.ids@[j], ent.key@) by {
                let p = a.pos_of(ent.ids@[j]);
                if 0 < p < a.node_count() {
                    assert(a.key_chars_at(p) == b.key_chars_at(p));
                }
            }
        }
        assert forall|i: int|
            1 <= i < a.node_count() && a.nodes@[i].key[0] < a.nodes@[i].key[1] implies
            a.cache_has_node(i) == b.cache_has_node(i) by {
            assert(a.key_chars_at(i) == b.key_chars_at(i));
        }
    }

    /// Steps the built-in traversal: hands out the stored identifiers in
    /// instance order, then resets.
    pub fn next(&mut self) -> (r: Option<u64>)
        ensures
            final(self).nodes@ == old(self).nodes@,
            final(self).indexes@ == old(self).indexes@,
            final(self).buffer() == old(self).buffer(),
            final(self).cache_view() == old(self).cache_view(),
            final(self).spec_base() == old(self).spec_base(),
            final(self).spec_instances() == old(self).spec_instances(),
            final(self).spec_id_count() == old(self).spec_id_count(),
            final(self).wf() == old(self).wf(),
            if old(self).indexes@.len() > 0 && old(self).spec_iter_count() < old(
                self,
            ).indexes@.len() {
                &&& r == Some(old(self).indexes@[old(self).spec_iter_count() as int])
                &&& final(self).spec_iter_count() == old(self).spec_iter_count() + 1
            } else {
                &&& r is None
                &&& final(self).spec_iter_count() == 0
            },
    {
        let r = if !self.indexes.is_empty() && self.iter_count < self.indexes.len() {
            let id = self.indexes[self.iter_count];
            self.iter_count = self.iter_count + 1;
            Some(id)
        } else {
            self.iter_count = 0;
            None
        };
        proof {
            Self::lemma_wf_same(*old(self), *self);
        }
        r
    }

    /// The first arena position holding a node that is still open, or the
    /// node count when every node is closed.
    pub open spec fn spec_first_open(self, i: int) -> int
        decreases self.nodes@.len() - i,
    {
        if i < 0 || i >= self.nodes@.len() {
            self.nodes@.len() as int
        } else if self.nodes@[i].opened {
            i
        } else {
            self.spec_first_open(i + 1)
        }
    }

    /// Reports whether every node of the arena is closed; a residual open
    /// node names its instance, the first one in instance order.
    pub fn validate(&self) -> (r: Result<(), HsonError>)
        ensures
            r is Ok <==> (forall|i: int| 0 <= i < self.nodes@.len() ==> !self.nodes@[i].opened),
            r is Err ==> ({
                let f = self.spec_first_open(0);
                &&& 0 <= f < self.nodes@.len()
                &&& self.nodes@[f].opened
                &&& r == Err::<(), HsonError>(
                    HsonError::MalformedInput(
                        if self.nodes@[f].instance <= usize::MAX as u64 {
                            self.nodes@[f].instance as usize
                        } else {
                            0
                        },
                    ),
                )
            }),
    {
        let mut i: usize = 0;
        while i < self.nodes.len()
            invariant
                0 <= i <= self.nodes@.len(),
                forall|j: int| 0 <= j < i ==> !self.nodes@[j].opened,
                self.spec_first_open(0) == self.spec_first_open(i as int),
            decreases self.nodes@.len() - i,
        {
            let n = self.nodes.at(i);
            if n.opened {
                let inst = n.instance;
                return Err(
                    HsonError::MalformedInput(if inst <= usize::MAX as u64 {
                        inst as usize
                    } else {
                        0
                    }),
                );
            }
            i = i + 1;
        }
        Ok(())
    }
}

/// Copies a list of identifiers.
pub fn clone_ids(v: &Vec<u64>) -> (r: Vec<u64>)
    ensures
        r@ == v@,
{
    let mut out: Vec<u64> = Vec::new();
    let mut i: usize = 0;
    while i < v.len()
        invariant
            0 <= i <= v@.len(),
            out@ == v@.subrange(0, i as int),
        decreases v@.len() - i,
    {
        out.push(v[i]);
        proof {
            assert(out@ =~= v@.subrange(0, i + 1 as int));
        }
        i = i + 1;
    }
    proof {
        assert(out@ =~= v@);
    }
    out
}


impl Hson {
    /// One entry of the key index, with every listed node standing before
    /// arena position `m`.
    pub open spec fn wf_cache_entry_upto(self, e: int, m: int) -> bool {
        let ent = self.cache_view()[e];
        &&& ent.ids@.len() > 0
        &&& forall|a: int, b: int|
            0 <= a < b < ent.ids@.len() ==> self.pos_of(#[trigger] ent.ids@[a]) < self.pos_of(
                #[trigger] ent.ids@[b],
            )
        &&& forall|j: int|
            0 <= j < ent.ids@.len() ==> self.cached_id_ok(#[trigger] ent.ids@[j], ent.key@)
                && self.pos_of(ent.ids@[j]) < m
    }

    /// The key-index invariant over the first `m` arena positions only.
    pub open spec fn wf_cache_upto(self, m: int) -> bool {
        &&& forall|a: int, b: int|
            0 <= a < b < self.cache_view().len() ==> self.cache_view()[a].key@ != self.cache_view()[
                b
            ].key@
        &&& forall|e: int| 0 <= e < self.cache_view().len() ==> self.wf_cache_entry_upto(e, m)
        &&& forall|i: int|
            1 <= i < m && self.nodes@[i].key[0] < self.nodes@[i].key[1] ==> self.cache_has_node(i)
    }

    /// The index invariant over the whole arena is the index invariant.
    pub proof fn lemma_cache_upto_full(self)
        requires
            self.wf_cache_upto(self.node_count() as int),
        ensures
            self.wf_cache(),
    {
        assert forall|e: int| 0 <= e < self.cache_view().len() implies self.wf_cache_entry(e) by {
            assert(self.wf_cache_entry_upto(e, self.node_count() as int));
        }
    }

    /// Two documents with the same arena and buffer agree on every
    /// judgment about nodes.
    pub proof fn lemma_node_preds_same(a: Hson, b: Hson)
        requires
            a.nodes@ == b.nodes@,
            a.buffer() == b.buffer(),
        ensures
            forall|id: u64| #[trigger] a.pos_of(id) == b.pos_of(id),
            forall|i: int| #[trigger] a.key_chars_at(i) == b.key_chars_at(i),
            forall|id: u64, k: Seq<char>| #[trigger] a.cached_id_ok(id, k) == b.cached_id_ok(
                id,
                k,
            ),
    {
        assert forall|id: u64| #[trigger] a.pos_of(id) == b.pos_of(id) by {
            assert(a.nodes@ == b.nodes@);
        }
        assert forall|i: int| #[trigger] a.key_chars_at(i) == b.key_chars_at(i) by {
            assert(a.buffer() == b.buffer());
        }
        assert forall|id: u64, k: Seq<char>| #[trigger] a.cached_id_ok(id, k)
            == b.cached_id_ok(id, k) by {
            assert(a.pos_of(id) == b.pos_of(id));
            if 0 < a.pos_of(id) < a.node_count() {
                assert(a.key_chars_at(a.pos_of(id)) == b.key_chars_at(b.pos_of(id)));
            }
        }
    }

    /// Copies a character range of the buffer.
    pub fn copy_range(&self, a: usize, b: usize) -> (r: Vec<char>)
        requires
            a <= b <= self.buffer().len(),
        ensures
            r@ == self.buffer().subrange(a as int, b as int),
    {
        let mut out: Vec<char> = Vec::new();
        let mut i: usize = a;
        while i < b
            invariant
                a <= i <= b <= self.data@.len(),
                out@ == self.data@.subrange(a as int, i as int),
            decreases b - i,
        {
            out.push(self.data[i]);
            proof {
                assert(out@ =~= self.data@.subrange(a as int, i + 1 as int));
            }
            i = i + 1;
        }
        out
    }
}


impl Hson {
    /// What holds of the node at position `k` while a text is being read:
    /// the arena invariant, with ranges bounded by the text being read and
    /// still-open nodes reaching provisionally to its end.
    pub open spec fn parse_node_at(self, k: int, buf: Seq<char>, i: int) -> bool {
        let n = self.nodes@[k];
        &&& n.id == self.indexes@[k]
        &&& n.id == self.spec_id_count() - self.nodes@.len() + k + 1
        &&& n.instance == self.spec_base() + k + 1
        &&& (n.root <==> k == 0)
        &&& (k == 0 ==> n.parent == 0)
        &&& (k > 0 ==> self.parent_ok(k))
        &&& self.childs_ok(k)
        &&& n.key[0] <= n.key[1] <= buf.len()
        &&& n.value[0] <= n.value[1] <= buf.len()
        &&& (n.opened ==> n.value[1] == buf.len() && n.value[0] <= i)
    }

    /// The scanner's invariant over the whole arena.
    pub open spec fn parse_inv(self, buf: Seq<char>, i: int) -> bool {
        &&& self.indexes@.len() == self.nodes@.len()
        &&& self.spec_instances() == self.spec_base() + self.nodes@.len()
        &&& self.nodes@.len() <= self.spec_id_count()
        &&& forall|k: int| 0 <= k < self.nodes@.len() ==> self.parse_node_at(k, buf, i)
    }

    /// Under the scanner's invariant identifiers are sequential, so unique.
    pub proof fn lemma_parse_ids_unique(self, buf: Seq<char>, i: int)
        requires
            self.parse_inv(buf, i),
        ensures
            self.ids_unique(),
    {
        assert forall|a: int, b: int|
            0 <= a < b < self.nodes@.len() implies self.nodes@[a].id != self.nodes@[b].id by {
            assert(self.parse_node_at(a, buf, i));
            assert(self.parse_node_at(b, buf, i));
        }
    }

    /// A later scan position weakens nothing in the scanner's invariant.
    pub proof fn lemma_parse_inv_mono(self, buf: Seq<char>, i: int, j: int)
        requires
            self.parse_inv(buf, i),
            i <= j,
        ensures
            self.parse_inv(buf, j),
    {
        assert forall|k: int| 0 <= k < self.nodes@.len() implies self.parse_node_at(
            k,
            buf,
            j,
        ) by {
            assert(self.parse_node_at(k, buf, i));
        }
    }
}


/// Copies the first `k` identifiers of a list.
pub fn clone_ids_prefix(v: &Vec<u64>, k: usize) -> (r: Vec<u64>)
    requires
        k <= v@.len(),
    ensures
        r@ == v@.subrange(0, k as int),
{
    let mut out: Vec<u64> = Vec::new();
    let mut i: usize = 0;
    while i < k
        invariant
            0 <= i <= k <= v@.len(),
            out@ == v@.subrange(0, i as int),
        decreases k - i,
    {
        out.push(v[i]);
        proof {
            assert(out@ =~= v@.subrange(0, i + 1 as int));
        }
        i = i + 1;
    }
    out
}


impl Hson {
    /// Whether the identifier names an array node.
    pub fn node_is_array(&self, node_id: u64) -> (r: bool)
        ensures
            r == (self.pos_of(node_id) < self.node_count() && self.node_of(node_id).kind
                == crate::node::Kind::Array),
    {
        match self.nodes.position_of(node_id) {
            Some(p) => self.nodes.at(p).kind == crate::node::Kind::Array,
            None => false,
        }
    }
}

} // verus!
