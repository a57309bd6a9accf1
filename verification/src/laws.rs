//! The document's standing guarantees, stated on their own: what holds of
//! every well-formed document, as the parser and the edit engine leave it.

use vstd::prelude::*;
use crate::doc::Hson;

verus! {

impl Hson {
    /// The order store and the arena walk in step: they have the same
    /// length, and the node at each position carries the instance that
    /// position says.
    pub proof fn lemma_order_instances(self)
        requires
            self.wf(),
        ensures
            self.indexes@.len() == self.node_count(),
            forall|i: int|
                0 <= i < self.node_count() ==> #[trigger] self.nodes@[i].instance
                    == self.spec_base() + i + 1,
            forall|i: int|
                0 <= i < self.node_count() ==> #[trigger] self.nodes@[i].id == self.indexes@[i],
    {
        assert forall|i: int|
            0 <= i < self.node_count() implies #[trigger] self.nodes@[i].instance
            == self.spec_base() + i + 1 by {
            assert(self.wf_node_at(i));
        }
        assert forall|i: int|
            0 <= i < self.node_count() implies #[trigger] self.nodes@[i].id
            == self.indexes@[i] by {
            assert(self.wf_node_at(i));
        }
    }

    /// Parent and child agree: every non-root node's parent stands
    /// earlier in the document and lists the node among its children, and
    /// every child list is free of duplicates, so each child is listed
    /// exactly once.
    pub proof fn lemma_parent_child(self)
        requires
            self.wf(),
        ensures
            forall|i: int| 0 < i < self.node_count() ==> #[trigger] self.parent_ok(i),
            forall|i: int| 0 <= i < self.node_count() ==> #[trigger] self.childs_ok(i),
    {
        assert forall|i: int| 0 < i < self.node_count() implies #[trigger] self.parent_ok(i) by {
            assert(self.wf_node_at(i));
        }
        assert forall|i: int| 0 <= i < self.node_count() implies #[trigger] self.childs_ok(i) by {
            assert(self.wf_node_at(i));
        }
    }

    /// The key index is exact: every non-root node with a non-empty key is
    /// listed under the very text its key range points at, each entry's
    /// list ascends by instance, and each listed node carries the entry's
    /// key.
    pub proof fn lemma_cache_exact(self)
        requires
            self.wf(),
        ensures
            forall|i: int|
                1 <= i < self.node_count() && self.nodes@[i].key[0] < self.nodes@[i].key[1]
                    ==> self.cache_has_node(i),
            forall|e: int, a: int, b: int|
                0 <= e < self.cache_view().len() && 0 <= a < b < self.cache_view()[e].ids@.len()
                    ==> self.pos_of(self.cache_view()[e].ids@[a]) < self.pos_of(
                    self.cache_view()[e].ids@[b],
                ),
            forall|e: int, j: int|
                0 <= e < self.cache_view().len() && 0 <= j < self.cache_view()[e].ids@.len()
                    ==> self.cached_id_ok(
                    self.cache_view()[e].ids@[j],
                    self.cache_view()[e].key@,
                ),
    {
        assert forall|e: int, a: int, b: int|
            0 <= e < self.cache_view().len() && 0 <= a < b
                < self.cache_view()[e].ids@.len() implies self.pos_of(
            self.cache_view()[e].ids@[a]) < self.pos_of(self.cache_view()[e].ids@[b]) by {
            assert(self.wf_cache_entry(e));
        }
        assert forall|e: int, j: int|
            0 <= e < self.cache_view().len() && 0 <= j
                < self.cache_view()[e].ids@.len() implies self.cached_id_ok(
            self.cache_view()[e].ids@[j], self.cache_view()[e].key@) by {
            assert(self.wf_cache_entry(e));
        }
    }

    /// No node of a well-formed document is still open.
    pub proof fn lemma_none_opened(self)
        requires
            self.wf(),
        ensures
            forall|i: int| 0 <= i < self.node_count() ==> !self.nodes@[i].opened,
    {
        assert forall|i: int| 0 <= i < self.node_count() implies !self.nodes@[i].opened by {
            assert(self.wf_node_at(i));
        }
    }

    /// Value ranges nest along the descendant relation.
    pub open spec fn spec_ranges_nested(self) -> bool {
        forall|i: int, j: int|
            0 <= i < self.node_count() && 0 <= j < self.node_count() && #[trigger] self.spec_chain_hits(
                self.nodes@[i].id,
                j,
            ) ==> self.nodes@[i].value[0] <= self.nodes@[j].value[0] && self.nodes@[j].value[1]
                <= self.nodes@[i].value[1]
    }

    /// Decides whether value ranges nest: for every pair of an ancestor
    /// and one of its transitive children, the ancestor's value range
    /// encloses the child's.
    pub fn check_ranges_nested(&self) -> (r: bool)
        requires
            self.wf(),
        ensures
            r == self.spec_ranges_nested(),
    {
        let n = self.nodes.len();
        let mut i: usize = 0;
        while i < n
            invariant
                self.wf(),
                n == self.node_count(),
                0 <= i <= n,
                forall|a: int, j: int|
                    0 <= a < i && 0 <= j < n && #[trigger] self.spec_chain_hits(
                        self.nodes@[a].id,
                        j,
                    ) ==> self.nodes@[a].value[0] <= self.nodes@[j].value[0]
                        && self.nodes@[j].value[1] <= self.nodes@[a].value[1],
            decreases n - i,
        {
            let anc = self.nodes.at(i);
            let anc_id = anc.id;
            let anc_v0 = anc.value[0];
            let anc_v1 = anc.value[1];
            let mut j: usize = 0;
            while j < n
                invariant
                    self.wf(),
                    n == self.node_count(),
                    0 <= i < n,
                    0 <= j <= n,
                    anc_id == self.nodes@[i as int].id,
                    anc_v0 == self.nodes@[i as int].value[0],
                    anc_v1 == self.nodes@[i as int].value[1],
                    forall|jj: int|
                        0 <= jj < j && #[trigger] self.spec_chain_hits(
                            self.nodes@[i as int].id,
                            jj,
                        ) ==> self.nodes@[i as int].value[0] <= self.nodes@[jj].value[0]
                            && self.nodes@[jj].value[1] <= self.nodes@[i as int].value[1],
                decreases n - j,
            {
                let d = self.nodes.at(j);
                let did = d.id;
                let dv0 = d.value[0];
                let dv1 = d.value[1];
                proof {
                    self.lemma_pos_of_id(j as int);
                }
                if self.is_descendant(anc_id, did) {
                    if !(anc_v0 <= dv0 && dv1 <= anc_v1) {
                        return false;
                    }
                }
                proof {
                    if self.spec_chain_hits(self.nodes@[i as int].id, j as int) {
                        assert(self.has_id(did));
                    }
                }
                j = j + 1;
            }
            i = i + 1;
        }
        true
    }
}


impl Hson {
    /// Key ranges are pairwise disjoint: no two non-empty keys share a
    /// buffer position.
    pub open spec fn spec_keys_disjoint(self) -> bool {
        forall|i: int, j: int|
            0 <= i < self.node_count() && 0 <= j < self.node_count() && i != j
                && #[trigger] self.nodes@[i].key[0] < self.nodes@[i].key[1]
                && #[trigger] self.nodes@[j].key[0] < self.nodes@[j].key[1]
                ==> self.nodes@[i].key[1] <= self.nodes@[j].key[0] || self.nodes@[j].key[1]
                <= self.nodes@[i].key[0]
    }

    /// Decides whether key ranges are pairwise disjoint.
    pub fn check_keys_disjoint(&self) -> (r: bool)
        requires
            self.wf(),
        ensures
            r == self.spec_keys_disjoint(),
    {
        let n = self.nodes.len();
        let mut i: usize = 0;
        while i < n
            invariant
                self.wf(),
                n == self.node_count(),
                0 <= i <= n,
                forall|a: int, b: int|
                    0 <= a < i && 0 <= b < n && a != b && #[trigger] self.nodes@[a].key[0]
                        < self.nodes@[a].key[1] && #[trigger] self.nodes@[b].key[0]
                        < self.nodes@[b].key[1] ==> self.nodes@[a].key[1]
                        <= self.nodes@[b].key[0] || self.nodes@[b].key[1]
                        <= self.nodes@[a].key[0],
            decreases n - i,
        {
            let a = self.nodes.at(i);
            let ak0 = a.key[0];
            let ak1 = a.key[1];
            let mut j: usize = 0;
            while j < n
                invariant
                    self.wf(),
                    n == self.node_count(),
                    0 <= i < n,
                    0 <= j <= n,
                    ak0 == self.nodes@[i as int].key[0],
                    ak1 == self.nodes@[i as int].key[1],
                    forall|b: int|
                        0 <= b < j && b != i as int && self.nodes@[i as int].key[0]
                            < self.nodes@[i as int].key[1] && #[trigger] self.nodes@[b].key[0]
                            < self.nodes@[b].key[1] ==> self.nodes@[i as int].key[1]
                            <= self.nodes@[b].key[0] || self.nodes@[b].key[1]
                            <= self.nodes@[i as int].key[0],
                decreases n - j,
            {
                if j != i {
                    let b = self.nodes.at(j);
                    let bk0 = b.key[0];
                    let bk1 = b.key[1];
                    if ak0 < ak1 && bk0 < bk1 {
                        if !(ak1 <= bk0 || bk1 <= ak0) {
                            return false;
                        }
                    }
                }
                j = j + 1;
            }
            i = i + 1;
        }
        true
    }
}

} // verus!
