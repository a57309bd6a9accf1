//! Walking the tree: transitive children and the descendant relation.

use vstd::prelude::*;
use crate::doc::Hson;
use crate::doc::HsonError;
use crate::node::Node;
use crate::nodemap::lemma_find_id;

verus! {

impl Hson {
    /// The transitive children of the node at position `p`, as the walk
    /// lists them: first the direct children, then each child's transitive
    /// children in turn.
    pub open spec fn spec_descendants(self, p: int) -> Seq<u64>
        decreases self.node_count() - p, 1nat, 0nat,
            via Self::descendants_decreases
    {
        if 0 <= p < self.node_count() {
            self.nodes@[p].childs@ + self.spec_desc_list(self.nodes@[p].childs@, p, 0)
        } else {
            Seq::empty()
        }
    }

    /// The concatenation of the transitive children of the listed nodes,
    /// each of which stands after position `p` in the arena.
    pub open spec fn spec_desc_list(self, cs: Seq<u64>, p: int, j: int) -> Seq<u64>
        decreases self.node_count() - p, 0nat, cs.len() - j,
            via Self::desc_list_decreases
    {
        if 0 <= p < self.node_count() && 0 <= j < cs.len() {
            let c = self.pos_of(cs[j]);
            (if p < c < self.node_count() {
                self.spec_descendants(c)
            } else {
                Seq::empty()
            }) + self.spec_desc_list(cs, p, j + 1)
        } else {
            Seq::empty()
        }
    }

    #[via_fn]
    proof fn descendants_decreases(self, p: int) {
    }

    #[via_fn]
    proof fn desc_list_decreases(self, cs: Seq<u64>, p: int, j: int) {
    }

    /// Collects the transitive children of a node in depth-first preorder:
    /// each child followed at once by its own subtree. Fails only for an
    /// identifier the document does not hold.
    pub fn get_all_childs(&self, node_id: u64) -> (r: Result<Vec<u64>, HsonError>)
        requires
            self.wf(),
        ensures
            match r {
                Ok(v) => self.has_id(node_id) && v@ == self.spec_preorder(self.pos_of(node_id)),
                Err(e) => !self.has_id(node_id) && e == HsonError::UnknownIdentifier(node_id),
            },
    {
        proof {
            self.lemma_has_id_find(node_id);
        }
        match self.nodes.position_of(node_id) {
            Some(p) => {
                proof {
                    self.lemma_pos_of_id(p as int);
                }
                Ok(self.collect_preorder(p))
            },
            None => {
                proof {
                    if self.has_id(node_id) {
                        self.lemma_has_id_find(node_id);
                    }
                }
                Err(HsonError::UnknownIdentifier(node_id))
            },
        }
    }

    /// Collects the transitive children of the node at a position, in the
    /// children-first order the edit engine walks.
    pub(crate) fn collect_descendants(&self, p: usize) -> (r: Vec<u64>)
        requires
            self.wf(),
            p < self.node_count(),
        ensures
            r@ == self.spec_descendants(p as int),
        decreases self.node_count() - p,
    {
        let mut results: Vec<u64> = Vec::new();
        let node = self.nodes.at(p);
        let n = node.childs.len();
        let mut j: usize = 0;
        proof {
            assert(self.wf_node_at(p as int));
        }
        while j < n
            invariant
                self.wf(),
                p < self.node_count(),
                n == self.nodes@[p as int].childs@.len(),
                0 <= j <= n,
                results@ == self.nodes@[p as int].childs@.subrange(0, j as int),
            decreases n - j,
        {
            proof {
                assert(self.wf_node_at(p as int));
                assert(self.childs_ok(p as int));
            }
            let node = self.nodes.at(p);
            results.push(node.childs[j]);
            proof {
                assert(results@ =~= self.nodes@[p as int].childs@.subrange(0, j + 1 as int));
            }
            j = j + 1;
        }
        proof {
            assert(results@ =~= self.nodes@[p as int].childs@);
        }
        let mut k: usize = 0;
        while k < n
            invariant
                self.wf(),
                p < self.node_count(),
                n == self.nodes@[p as int].childs@.len(),
                0 <= k <= n,
                results@ == self.nodes@[p as int].childs@ + self.spec_desc_prefix(
                    self.nodes@[p as int].childs@,
                    p as int,
                    k as int,
                ),
            decreases n - k,
        {
            proof {
                assert(self.wf_node_at(p as int));
                assert(self.childs_ok(p as int));
            }
            let node = self.nodes.at(p);
            let cid = node.childs[k];
            let cp = match self.nodes.position_of(cid) {
                Some(cp) => cp,
                None => {
                    proof {
                        assert(false);
                    }
                    return results;
                },
            };
            proof {
                assert(p < cp < self.node_count());
            }
            let mut sub = self.collect_descendants(cp);
            let mut t: usize = 0;
            let sl = sub.len();
            while t < sl
                invariant
                    0 <= t <= sl,
                    sl == sub@.len(),
                    results@ == self.nodes@[p as int].childs@ + self.spec_desc_prefix(
                        self.nodes@[p as int].childs@,
                        p as int,
                        k as int,
                    ) + sub@.subrange(0, t as int),
                decreases sl - t,
            {
                results.push(sub[t]);
                proof {
                    assert(results@ =~= self.nodes@[p as int].childs@ + self.spec_desc_prefix(
                        self.nodes@[p as int].childs@,
                        p as int,
                        k as int,
                    ) + sub@.subrange(0, t + 1 as int));
                }
                t = t + 1;
            }
            proof {
                assert(sub@.subrange(0, sl as int) =~= sub@);
                self.lemma_desc_prefix_step(self.nodes@[p as int].childs@, p as int, k as int);
                assert(results@ =~= self.nodes@[p as int].childs@ + self.spec_desc_prefix(
                    self.nodes@[p as int].childs@,
                    p as int,
                    k + 1 as int,
                ));
            }
            k = k + 1;
        }
        proof {
            self.lemma_desc_prefix_full(self.nodes@[p as int].childs@, p as int);
            assert(results@ =~= self.spec_descendants(p as int));
        }
        results
    }

    /// The concatenation of the transitive children of the first `k`
    /// listed nodes.
    pub open spec fn spec_desc_prefix(self, cs: Seq<u64>, p: int, k: int) -> Seq<u64>
        decreases k,
    {
        if k <= 0 {
            Seq::empty()
        } else {
            self.spec_desc_prefix(cs, p, k - 1) + (if 0 <= p < self.node_count() && 0 <= k - 1
                < cs.len() {
                let c = self.pos_of(cs[k - 1]);
                if p < c < self.node_count() {
                    self.spec_descendants(c)
                } else {
                    Seq::empty()
                }
            } else {
                Seq::empty()
            })
        }
    }

    /// Extending the prefix by one child appends that child's transitive
    /// children.
    proof fn lemma_desc_prefix_step(self, cs: Seq<u64>, p: int, k: int)
        requires
            0 <= k,
        ensures
            self.spec_desc_prefix(cs, p, k + 1) == self.spec_desc_prefix(cs, p, k) + (if 0 <= p
                < self.node_count() && 0 <= k < cs.len() {
                let c = self.pos_of(cs[k]);
                if p < c < self.node_count() {
                    self.spec_descendants(c)
                } else {
                    Seq::empty()
                }
            } else {
                Seq::empty()
            }),
    {
    }

    /// The full prefix is the whole suffix walk.
    proof fn lemma_desc_prefix_full(self, cs: Seq<u64>, p: int)
        ensures
            self.spec_desc_prefix(cs, p, cs.len() as int) == self.spec_desc_list(cs, p, 0),
    {
        self.lemma_desc_prefix_eq(cs, p, cs.len() as int);
    }

    /// The prefix from the front equals the recursive walk up to the same
    /// point, joined with the remaining walk.
    proof fn lemma_desc_prefix_eq(self, cs: Seq<u64>, p: int, k: int)
        requires
            0 <= k <= cs.len(),
        ensures
            self.spec_desc_list(cs, p, 0) == self.spec_desc_prefix(cs, p, k) + self.spec_desc_list(
                cs,
                p,
                k,
            ),
        decreases k,
    {
        if k == 0 {
            assert(self.spec_desc_prefix(cs, p, 0) + self.spec_desc_list(cs, p, 0)
                =~= self.spec_desc_list(cs, p, 0));
        } else {
            self.lemma_desc_prefix_eq(cs, p, k - 1);
            if 0 <= p < self.node_count() && 0 <= k - 1 < cs.len() {
                assert(self.spec_desc_prefix(cs, p, k) + self.spec_desc_list(cs, p, k)
                    =~= self.spec_desc_prefix(cs, p, k - 1) + self.spec_desc_list(cs, p, k - 1));
            } else {
                assert(self.spec_desc_list(cs, p, k - 1) =~= self.spec_desc_list(cs, p, k));
                assert(self.spec_desc_prefix(cs, p, k) =~= self.spec_desc_prefix(cs, p, k - 1));
                assert(self.spec_desc_prefix(cs, p, k) + self.spec_desc_list(cs, p, k)
                    =~= self.spec_desc_prefix(cs, p, k - 1) + self.spec_desc_list(cs, p, k - 1));
            }
        }
    }

    /// Whether the parent chain rising from the node at position `i` hits
    /// a node whose identifier is `pid`.
    pub open spec fn spec_chain_hits(self, pid: u64, i: int) -> bool
        decreases i,
            via Self::chain_hits_decreases
    {
        if !(0 <= i < self.node_count()) {
            false
        } else if self.nodes@[i].parent == pid {
            true
        } else if self.nodes@[i].root {
            false
        } else {
            let p = self.pos_of(self.nodes@[i].parent);
            if 0 <= p < i {
                self.spec_chain_hits(pid, p)
            } else {
                false
            }
        }
    }

    #[via_fn]
    proof fn chain_hits_decreases(self, pid: u64, i: int) {
    }

    /// Reports whether walking parent pointers up from `child_id` meets a
    /// node whose parent field carries `parent_id`; the root's parent
    /// field carries the absent marker.
    pub fn is_descendant(&self, parent_id: u64, child_id: u64) -> (r: bool)
        requires
            self.wf(),
        ensures
            r == (self.has_id(child_id) && self.spec_chain_hits(parent_id, self.pos_of(child_id))),
    {
        proof {
            self.lemma_has_id_find(child_id);
        }
        let mut current = child_id;
        let mut cp = match self.nodes.position_of(current) {
            Some(p) => p,
            None => {
                proof {
                    if self.has_id(child_id) {
                        self.lemma_has_id_find(child_id);
                    }
                }
                return false;
            },
        };
        proof {
            self.lemma_pos_of_id(cp as int);
        }
        loop
            invariant
                self.wf(),
                cp < self.node_count(),
                self.nodes@[cp as int].id == current,
                self.pos_of(current) == cp,
                self.has_id(child_id),
                self.spec_chain_hits(parent_id, self.pos_of(child_id)) == self.spec_chain_hits(
                    parent_id,
                    cp as int,
                ),
            decreases cp,
        {
            let node = self.nodes.at(cp);
            if node.parent == parent_id {
                return true;
            }
            if node.root {
                return false;
            }
            proof {
                assert(self.wf_node_at(cp as int));
                assert(self.parent_ok(cp as int));
            }
            current = node.parent;
            cp = match self.nodes.position_of(current) {
                Some(p) => p,
                None => {
                    proof {
                        assert(false);
                    }
                    return false;
                },
            };
            proof {
                self.lemma_pos_of_id(cp as int);
            }
        }
    }

    /// Collects the transitive children of a node as node references, in
    /// the same depth-first preorder as the identifier walk.
    pub fn get_all_node_childs(&self, node: &Node) -> (r: Result<Vec<&Node>, HsonError>)
        requires
            self.wf(),
            self.has_id(node.id),
            *node == self.node_of(node.id),
        ensures
            match r {
                Ok(v) => {
                    let ids = self.spec_preorder(self.pos_of(node.id));
                    &&& v@.len() == ids.len()
                    &&& forall|j: int| 0 <= j < v@.len() ==> *v@[j] == self.node_of(ids[j])
                },
                Err(_) => false,
            },
    {
        let ids = match self.get_all_childs(node.id) {
            Ok(v) => v,
            Err(_) => {
                proof {
                    assert(false);
                }
                return Err(HsonError::UnknownIdentifier(node.id));
            },
        };
        let mut out: Vec<&Node> = Vec::new();
        let ghost idseq = self.spec_preorder(self.pos_of(node.id));
        let mut j: usize = 0;
        proof {
            self.lemma_preorder_in_arena(self.pos_of(node.id));
        }
        while j < ids.len()
            invariant
                self.wf(),
                ids@ == idseq,
                forall|t: int| 0 <= t < idseq.len() ==> self.has_id(#[trigger] idseq[t]),
                0 <= j <= ids@.len(),
                out@.len() == j,
                forall|t: int| 0 <= t < j ==> *out@[t] == self.node_of(idseq[t]),
            decreases ids@.len() - j,
        {
            let id = ids[j];
            match self.nodes.position_of(id) {
                Some(p) => {
                    proof {
                        self.lemma_has_id_find(id);
                    }
                    out.push(self.nodes.at(p));
                },
                None => {
                    proof {
                        self.lemma_has_id_find(id);
                        assert(false);
                    }
                    return Err(HsonError::UnknownIdentifier(id));
                },
            }
            j = j + 1;
        }
        Ok(out)
    }

    /// Every identifier a descendant walk lists is held by the document.
    pub proof fn lemma_descendants_in_arena(self, p: int)
        requires
            self.wf(),
        ensures
            forall|t: int|
                0 <= t < self.spec_descendants(p).len() ==> self.has_id(
                    #[trigger] self.spec_descendants(p)[t],
                ),
        decreases self.node_count() - p, 1nat, 0nat,
    {
        if 0 <= p < self.node_count() {
            assert(self.wf_node_at(p));
            assert(self.childs_ok(p));
            let cs = self.nodes@[p].childs@;
            self.lemma_desc_list_in_arena(cs, p, 0);
            assert forall|t: int|
                0 <= t < self.spec_descendants(p).len() implies self.has_id(
                #[trigger] self.spec_descendants(p)[t]) by {
                if t < cs.len() {
                    let c = self.pos_of(cs[t]);
                    assert(0 <= c < self.node_count());
                    lemma_find_id(self.nodes@, cs[t], 0);
                    assert(self.nodes@[c].id == cs[t]);
                } else {
                    let rest = self.spec_desc_list(cs, p, 0);
                    assert(self.spec_descendants(p)[t] == rest[t - cs.len()]);
                }
            }
        }
    }

    /// Every identifier in a child-list walk is held by the document.
    proof fn lemma_desc_list_in_arena(self, cs: Seq<u64>, p: int, j: int)
        requires
            self.wf(),
        ensures
            forall|t: int|
                0 <= t < self.spec_desc_list(cs, p, j).len() ==> self.has_id(
                    #[trigger] self.spec_desc_list(cs, p, j)[t],
                ),
        decreases self.node_count() - p, 0nat, cs.len() - j,
    {
        if 0 <= p < self.node_count() && 0 <= j < cs.len() {
            let c = self.pos_of(cs[j]);
            if p < c < self.node_count() {
                self.lemma_descendants_in_arena(c);
            }
            self.lemma_desc_list_in_arena(cs, p, j + 1);
            let head: Seq<u64> = if p < c < self.node_count() {
                self.spec_descendants(c)
            } else {
                Seq::empty()
            };
            let tail = self.spec_desc_list(cs, p, j + 1);
            assert forall|t: int|
                0 <= t < self.spec_desc_list(cs, p, j).len() implies self.has_id(
                #[trigger] self.spec_desc_list(cs, p, j)[t]) by {
                if t < head.len() {
                    assert(self.spec_desc_list(cs, p, j)[t] == head[t]);
                } else {
                    assert(self.spec_desc_list(cs, p, j)[t] == tail[t - head.len()]);
                }
            }
        }
    }
}


impl Hson {
    /// Every node a descendant walk lists stands strictly after the walked
    /// node in the arena.
    pub proof fn lemma_descendants_below(self, p: int)
        requires
            self.wf(),
        ensures
            forall|t: int|
                0 <= t < self.spec_descendants(p).len() ==> self.pos_of(
                    #[trigger] self.spec_descendants(p)[t],
                ) > p,
        decreases self.node_count() - p, 1nat, 0nat,
    {
        if 0 <= p < self.node_count() {
            assert(self.wf_node_at(p));
            assert(self.childs_ok(p));
            let cs = self.nodes@[p].childs@;
            self.lemma_desc_list_below(cs, p, 0, p);
            assert forall|t: int|
                0 <= t < self.spec_descendants(p).len() implies self.pos_of(
                #[trigger] self.spec_descendants(p)[t]) > p by {
                if t < cs.len() {
                } else {
                    let rest = self.spec_desc_list(cs, p, 0);
                    assert(self.spec_descendants(p)[t] == rest[t - cs.len()]);
                }
            }
        }
    }

    proof fn lemma_desc_list_below(self, cs: Seq<u64>, p: int, j: int, lo: int)
        requires
            self.wf(),
            lo <= p,
            forall|t: int|
                0 <= t < cs.len() ==> self.pos_of(#[trigger] cs[t]) > p,
        ensures
            forall|t: int|
                0 <= t < self.spec_desc_list(cs, p, j).len() ==> self.pos_of(
                    #[trigger] self.spec_desc_list(cs, p, j)[t],
                ) > lo,
        decreases self.node_count() - p, 0nat, cs.len() - j,
    {
        if 0 <= p < self.node_count() && 0 <= j < cs.len() {
            let c = self.pos_of(cs[j]);
            if p < c < self.node_count() {
                self.lemma_descendants_below(c);
            }
            self.lemma_desc_list_below(cs, p, j + 1, lo);
            let head: Seq<u64> = if p < c < self.node_count() {
                self.spec_descendants(c)
            } else {
                Seq::empty()
            };
            let tail = self.spec_desc_list(cs, p, j + 1);
            assert forall|t: int|
                0 <= t < self.spec_desc_list(cs, p, j).len() implies self.pos_of(
                #[trigger] self.spec_desc_list(cs, p, j)[t]) > lo by {
                if t < head.len() {
                    assert(self.spec_desc_list(cs, p, j)[t] == head[t]);
                    assert(self.pos_of(head[t]) > c);
                } else {
                    assert(self.spec_desc_list(cs, p, j)[t] == tail[t - head.len()]);
                }
            }
        }
    }

    /// The walk is closed under parents: a listed node's parent is either
    /// the walked node itself or listed too.
    pub proof fn lemma_descendants_closed(self, p: int)
        requires
            self.wf(),
            0 <= p < self.node_count(),
        ensures
            forall|t: int|
                0 <= t < self.spec_descendants(p).len() ==> {
                    let x = self.pos_of(#[trigger] self.spec_descendants(p)[t]);
                    self.nodes@[x].parent == self.nodes@[p].id || self.spec_descendants(
                        p,
                    ).contains(self.nodes@[x].parent)
                },
        decreases self.node_count() - p, 1nat, 0nat,
    {
        assert(self.wf_node_at(p));
        assert(self.childs_ok(p));
        let cs = self.nodes@[p].childs@;
        let whole = self.spec_descendants(p);
        assert forall|t: int| 0 <= t < cs.len() implies whole.contains(#[trigger] cs[t]) by {
            assert(whole[t] == cs[t]);
        }
        assert forall|t: int|
            0 <= t < self.spec_desc_list(cs, p, 0).len() implies whole.contains(
            #[trigger] self.spec_desc_list(cs, p, 0)[t]) by {
            assert(whole[cs.len() + t] == self.spec_desc_list(cs, p, 0)[t]);
        }
        self.lemma_desc_list_closed(cs, p, 0, whole);
        assert forall|t: int| 0 <= t < whole.len() implies {
            let x = self.pos_of(#[trigger] whole[t]);
            self.nodes@[x].parent == self.nodes@[p].id || whole.contains(self.nodes@[x].parent)
        } by {
            if t < cs.len() {
                let x = self.pos_of(whole[t]);
                crate::nodemap::lemma_find_id(self.nodes@, cs[t], 0);
                assert(self.nodes@[x].parent == self.nodes@[p].id);
            } else {
                let rest = self.spec_desc_list(cs, p, 0);
                assert(whole[t] == rest[t - cs.len()]);
            }
        }
    }

    /// Same closure over a child-list walk: each listed node's parent is
    /// the child whose subtree lists it, or deeper, and in every case a
    /// member of `whole` whenever the walked lists sit inside `whole`.
    proof fn lemma_desc_list_closed(self, cs: Seq<u64>, p: int, j: int, whole: Seq<u64>)
        requires
            self.wf(),
            forall|t: int|
                0 <= t < self.spec_desc_list(cs, p, j).len() ==> whole.contains(
                    #[trigger] self.spec_desc_list(cs, p, j)[t],
                ),
            forall|t: int| 0 <= t < cs.len() ==> whole.contains(#[trigger] cs[t]),
        ensures
            forall|t: int|
                0 <= t < self.spec_desc_list(cs, p, j).len() ==> {
                    let x = self.pos_of(#[trigger] self.spec_desc_list(cs, p, j)[t]);
                    whole.contains(self.nodes@[x].parent)
                },
        decreases self.node_count() - p, 0nat, cs.len() - j,
    {
        if 0 <= p < self.node_count() && 0 <= j < cs.len() {
            let c = self.pos_of(cs[j]);
            let head: Seq<u64> = if p < c < self.node_count() {
                self.spec_descendants(c)
            } else {
                Seq::empty()
            };
            let tail = self.spec_desc_list(cs, p, j + 1);
            let cur = self.spec_desc_list(cs, p, j);
            assert(cur == head + tail);
            assert forall|t: int|
                0 <= t < head.len() implies whole.contains(#[trigger] head[t]) by {
                assert(cur[t] == head[t]);
            }
            assert forall|t: int|
                0 <= t < tail.len() implies whole.contains(#[trigger] tail[t]) by {
                assert(cur[head.len() + t] == tail[t]);
            }
            if p < c < self.node_count() {
                crate::nodemap::lemma_find_id(self.nodes@, cs[j], 0);
                assert(self.nodes@[c].id == cs[j]);
                assert(whole.contains(self.nodes@[c].id));
                self.lemma_desc_subtree_closed(c, whole);
            }
            self.lemma_desc_list_closed(cs, p, j + 1, whole);
            assert forall|t: int| 0 <= t < cur.len() implies {
                let x = self.pos_of(#[trigger] cur[t]);
                whole.contains(self.nodes@[x].parent)
            } by {
                if t < head.len() {
                    assert(cur[t] == head[t]);
                } else {
                    assert(cur[t] == tail[t - head.len()]);
                }
            }
        }
    }

    /// A subtree walk whose members all sit inside `whole`, rooted at a
    /// node that sits inside `whole` too, has every member's parent inside
    /// `whole`.
    proof fn lemma_desc_subtree_closed(self, c: int, whole: Seq<u64>)
        requires
            self.wf(),
            0 <= c < self.node_count(),
            whole.contains(self.nodes@[c].id),
            forall|t: int|
                0 <= t < self.spec_descendants(c).len() ==> whole.contains(
                    #[trigger] self.spec_descendants(c)[t],
                ),
        ensures
            forall|t: int|
                0 <= t < self.spec_descendants(c).len() ==> {
                    let x = self.pos_of(#[trigger] self.spec_descendants(c)[t]);
                    whole.contains(self.nodes@[x].parent)
                },
        decreases self.node_count() - c, 1nat, 1nat,
    {
        assert(self.wf_node_at(c));
        assert(self.childs_ok(c));
        let cs = self.nodes@[c].childs@;
        let own = self.spec_descendants(c);
        assert forall|t: int| 0 <= t < cs.len() implies whole.contains(#[trigger] cs[t]) by {
            assert(own[t] == cs[t]);
        }
        assert forall|t: int|
            0 <= t < self.spec_desc_list(cs, c, 0).len() implies whole.contains(
            #[trigger] self.spec_desc_list(cs, c, 0)[t]) by {
            assert(own[cs.len() + t] == self.spec_desc_list(cs, c, 0)[t]);
        }
        self.lemma_desc_list_closed(cs, c, 0, whole);
        assert forall|t: int| 0 <= t < own.len() implies {
            let x = self.pos_of(#[trigger] own[t]);
            whole.contains(self.nodes@[x].parent)
        } by {
            if t < cs.len() {
                let x = self.pos_of(own[t]);
                crate::nodemap::lemma_find_id(self.nodes@, cs[t], 0);
                assert(self.nodes@[x].parent == self.nodes@[c].id);
            } else {
                assert(own[t] == self.spec_desc_list(cs, c, 0)[t - cs.len()]);
            }
        }
    }
}


impl Hson {
    /// The walk lists the children of every node it lists.
    pub proof fn lemma_descendants_children(self, p: int)
        requires
            self.wf(),
            0 <= p < self.node_count(),
        ensures
            forall|t: int, y: int|
                0 <= t < self.spec_descendants(p).len() && 0 <= y < self.nodes@[self.pos_of(
                    #[trigger] self.spec_descendants(p)[t],
                )].childs@.len() ==> self.spec_descendants(p).contains(
                    #[trigger] self.nodes@[self.pos_of(self.spec_descendants(p)[t])].childs@[y],
                ),
        decreases self.node_count() - p, 1nat, 2nat,
    {
        assert(self.wf_node_at(p));
        assert(self.childs_ok(p));
        let cs = self.nodes@[p].childs@;
        let whole = self.spec_descendants(p);
        assert forall|t: int| 0 <= t < cs.len() implies whole.contains(#[trigger] cs[t]) by {
            assert(whole[t] == cs[t]);
        }
        assert forall|t: int|
            0 <= t < self.spec_desc_list(cs, p, 0).len() implies whole.contains(
            #[trigger] self.spec_desc_list(cs, p, 0)[t]) by {
            assert(whole[cs.len() + t] == self.spec_desc_list(cs, p, 0)[t]);
        }
        self.lemma_desc_list_children(cs, p, 0, whole);
        assert forall|t: int, y: int|
            0 <= t < whole.len() && 0 <= y < self.nodes@[self.pos_of(
                #[trigger] whole[t],
            )].childs@.len() implies whole.contains(
            #[trigger] self.nodes@[self.pos_of(whole[t])].childs@[y]) by {
            if t < cs.len() {
                // the listed node is a direct child: its own children stand
                // in its subtree walk, which sits inside the whole walk
                let c = self.pos_of(cs[t]);
                crate::nodemap::lemma_find_id(self.nodes@, cs[t], 0);
                assert(p < c < self.node_count());
                let ghost sub = self.spec_descendants(c);
                self.lemma_desc_list_sub(cs, p, 0, t, whole);
                assert(self.nodes@[c].childs@[y] == sub[y]);
            } else {
                assert(whole[t] == self.spec_desc_list(cs, p, 0)[t - cs.len()]);
            }
        }
    }

    /// The subtree walk of the `j0`-th listed child sits, element for
    /// element, inside `whole`.
    proof fn lemma_desc_list_sub(self, cs: Seq<u64>, p: int, j: int, j0: int, whole: Seq<u64>)
        requires
            self.wf(),
            0 <= p < self.node_count(),
            0 <= j <= j0 < cs.len(),
            forall|t: int|
                0 <= t < self.spec_desc_list(cs, p, j).len() ==> whole.contains(
                    #[trigger] self.spec_desc_list(cs, p, j)[t],
                ),
        ensures
            ({
                let c = self.pos_of(cs[j0]);
                p < c < self.node_count() ==> forall|t: int|
                    0 <= t < self.spec_descendants(c).len() ==> whole.contains(
                        #[trigger] self.spec_descendants(c)[t],
                    )
            }),
        decreases j0 - j,
    {
        let c = self.pos_of(cs[j]);
        let head: Seq<u64> = if p < c < self.node_count() {
            self.spec_descendants(c)
        } else {
            Seq::empty()
        };
        let tail = self.spec_desc_list(cs, p, j + 1);
        let cur = self.spec_desc_list(cs, p, j);
        assert(cur == head + tail);
        if j == j0 {
            assert forall|t: int|
                0 <= t < head.len() implies whole.contains(#[trigger] head[t]) by {
                assert(cur[t] == head[t]);
            }
        } else {
            assert forall|t: int|
                0 <= t < tail.len() implies whole.contains(#[trigger] tail[t]) by {
                assert(cur[head.len() + t] == tail[t]);
            }
            self.lemma_desc_list_sub(cs, p, j + 1, j0, whole);
        }
    }

    /// The children-part of the closure lemma, for members of a child-list
    /// walk.
    proof fn lemma_desc_list_children(self, cs: Seq<u64>, p: int, j: int, whole: Seq<u64>)
        requires
            self.wf(),
            forall|t: int|
                0 <= t < self.spec_desc_list(cs, p, j).len() ==> whole.contains(
                    #[trigger] self.spec_desc_list(cs, p, j)[t],
                ),
        ensures
            forall|t: int, y: int|
                0 <= t < self.spec_desc_list(cs, p, j).len() && 0 <= y < self.nodes@[self.pos_of(
                    #[trigger] self.spec_desc_list(cs, p, j)[t],
                )].childs@.len() ==> whole.contains(
                    #[trigger] self.nodes@[self.pos_of(
                        self.spec_desc_list(cs, p, j)[t],
                    )].childs@[y],
                ),
        decreases self.node_count() - p, 0nat, cs.len() - j,
    {
        if 0 <= p < self.node_count() && 0 <= j < cs.len() {
            let c = self.pos_of(cs[j]);
            let head: Seq<u64> = if p < c < self.node_count() {
                self.spec_descendants(c)
            } else {
                Seq::empty()
            };
            let tail = self.spec_desc_list(cs, p, j + 1);
            let cur = self.spec_desc_list(cs, p, j);
            assert(cur == head + tail);
            assert forall|t: int|
                0 <= t < head.len() implies whole.contains(#[trigger] head[t]) by {
                assert(cur[t] == head[t]);
            }
            assert forall|t: int|
                0 <= t < tail.len() implies whole.contains(#[trigger] tail[t]) by {
                assert(cur[head.len() + t] == tail[t]);
            }
            if p < c < self.node_count() {
                self.lemma_desc_subtree_children(c, whole);
            }
            self.lemma_desc_list_children(cs, p, j + 1, whole);
            assert forall|t: int, y: int|
                0 <= t < cur.len() && 0 <= y < self.nodes@[self.pos_of(
                    #[trigger] cur[t],
                )].childs@.len() implies whole.contains(
                #[trigger] self.nodes@[self.pos_of(cur[t])].childs@[y]) by {
                if t < head.len() {
                    assert(cur[t] == head[t]);
                } else {
                    assert(cur[t] == tail[t - head.len()]);
                }
            }
        }
    }

    /// The children-part of the closure lemma, for one subtree inside
    /// `whole`.
    proof fn lemma_desc_subtree_children(self, c: int, whole: Seq<u64>)
        requires
            self.wf(),
            0 <= c < self.node_count(),
            forall|t: int|
                0 <= t < self.spec_descendants(c).len() ==> whole.contains(
                    #[trigger] self.spec_descendants(c)[t],
                ),
        ensures
            forall|y: int|
                0 <= y < self.nodes@[c].childs@.len() ==> whole.contains(
                    #[trigger] self.nodes@[c].childs@[y],
                ),
            forall|t: int, y: int|
                0 <= t < self.spec_descendants(c).len() && 0 <= y < self.nodes@[self.pos_of(
                    #[trigger] self.spec_descendants(c)[t],
                )].childs@.len() ==> whole.contains(
                    #[trigger] self.nodes@[self.pos_of(
                        self.spec_descendants(c)[t],
                    )].childs@[y],
                ),
        decreases self.node_count() - c, 1nat, 1nat,
    {
        assert(self.wf_node_at(c));
        assert(self.childs_ok(c));
        let cs = self.nodes@[c].childs@;
        let own = self.spec_descendants(c);
        assert forall|y: int|
            0 <= y < cs.len() implies whole.contains(#[trigger] cs[y]) by {
            assert(own[y] == cs[y]);
        }
        assert forall|t: int|
            0 <= t < self.spec_desc_list(cs, c, 0).len() implies whole.contains(
            #[trigger] self.spec_desc_list(cs, c, 0)[t]) by {
            assert(own[cs.len() + t] == self.spec_desc_list(cs, c, 0)[t]);
        }
        self.lemma_desc_list_children(cs, c, 0, whole);
        assert forall|t: int, y: int|
            0 <= t < own.len() && 0 <= y < self.nodes@[self.pos_of(
                #[trigger] own[t],
            )].childs@.len() implies whole.contains(
            #[trigger] self.nodes@[self.pos_of(own[t])].childs@[y]) by {
            if t < cs.len() {
                let x = self.pos_of(own[t]);
                crate::nodemap::lemma_find_id(self.nodes@, cs[t], 0);
                assert(c < x < self.node_count());
                self.lemma_desc_list_sub(cs, c, 0, t, whole);
                assert(self.nodes@[x].childs@[y] == self.spec_descendants(x)[y]);
            } else {
                assert(own[t] == self.spec_desc_list(cs, c, 0)[t - cs.len()]);
            }
        }
    }
}


impl Hson {
    /// The transitive children of the node at position `p` in depth-first
    /// preorder: each child followed at once by its own subtree.
    pub open spec fn spec_preorder(self, p: int) -> Seq<u64>
        decreases self.node_count() - p, 1nat, 0nat,
            via Self::preorder_decreases
    {
        if 0 <= p < self.node_count() {
            self.spec_pre_list(self.nodes@[p].childs@, p, 0)
        } else {
            Seq::empty()
        }
    }

    /// The preorder walk over a child list from position `j` on.
    pub open spec fn spec_pre_list(self, cs: Seq<u64>, p: int, j: int) -> Seq<u64>
        decreases self.node_count() - p, 0nat, cs.len() - j,
            via Self::pre_list_decreases
    {
        if 0 <= p < self.node_count() && 0 <= j < cs.len() {
            let c = self.pos_of(cs[j]);
            seq![cs[j]] + (if p < c < self.node_count() {
                self.spec_preorder(c)
            } else {
                Seq::empty()
            }) + self.spec_pre_list(cs, p, j + 1)
        } else {
            Seq::empty()
        }
    }

    #[via_fn]
    proof fn preorder_decreases(self, p: int) {
    }

    #[via_fn]
    proof fn pre_list_decreases(self, cs: Seq<u64>, p: int, j: int) {
    }

    /// The preorder walk over the first `k` children.
    pub open spec fn spec_pre_prefix(self, cs: Seq<u64>, p: int, k: int) -> Seq<u64>
        decreases k,
    {
        if k <= 0 {
            Seq::empty()
        } else {
            self.spec_pre_prefix(cs, p, k - 1) + (if 0 <= p < self.node_count() && 0 <= k - 1
                < cs.len() {
                let c = self.pos_of(cs[k - 1]);
                seq![cs[k - 1]] + (if p < c < self.node_count() {
                    self.spec_preorder(c)
                } else {
                    Seq::empty()
                })
            } else {
                Seq::empty()
            })
        }
    }

    /// The full preorder prefix is the whole walk.
    proof fn lemma_pre_prefix_full(self, cs: Seq<u64>, p: int)
        ensures
            self.spec_pre_prefix(cs, p, cs.len() as int) == self.spec_pre_list(cs, p, 0),
    {
        self.lemma_pre_prefix_eq(cs, p, cs.len() as int);
    }

    proof fn lemma_pre_prefix_eq(self, cs: Seq<u64>, p: int, k: int)
        requires
            0 <= k <= cs.len(),
        ensures
            self.spec_pre_list(cs, p, 0) == self.spec_pre_prefix(cs, p, k) + self.spec_pre_list(
                cs,
                p,
                k,
            ),
        decreases k,
    {
        if k == 0 {
            assert(self.spec_pre_prefix(cs, p, 0) + self.spec_pre_list(cs, p, 0)
                =~= self.spec_pre_list(cs, p, 0));
        } else {
            self.lemma_pre_prefix_eq(cs, p, k - 1);
            if 0 <= p < self.node_count() && 0 <= k - 1 < cs.len() {
                assert(self.spec_pre_prefix(cs, p, k) + self.spec_pre_list(cs, p, k)
                    =~= self.spec_pre_prefix(cs, p, k - 1) + self.spec_pre_list(cs, p, k - 1));
            } else {
                assert(self.spec_pre_list(cs, p, k - 1) =~= self.spec_pre_list(cs, p, k));
                assert(self.spec_pre_prefix(cs, p, k) =~= self.spec_pre_prefix(cs, p, k - 1));
                assert(self.spec_pre_prefix(cs, p, k) + self.spec_pre_list(cs, p, k)
                    =~= self.spec_pre_prefix(cs, p, k - 1) + self.spec_pre_list(cs, p, k - 1));
            }
        }
    }

    /// Collects the transitive children of the node at a position, in
    /// depth-first preorder.
    fn collect_preorder(&self, p: usize) -> (r: Vec<u64>)
        requires
            self.wf(),
            p < self.node_count(),
        ensures
            r@ == self.spec_preorder(p as int),
        decreases self.node_count() - p,
    {
        let mut results: Vec<u64> = Vec::new();
        let node = self.nodes.at(p);
        let n = node.childs.len();
        proof {
            assert(self.wf_node_at(p as int));
        }
        let mut k: usize = 0;
        proof {
            assert(results@ =~= self.spec_pre_prefix(
                self.nodes@[p as int].childs@,
                p as int,
                0,
            ));
        }
        while k < n
            invariant
                self.wf(),
                p < self.node_count(),
                n == self.nodes@[p as int].childs@.len(),
                0 <= k <= n,
                results@ == self.spec_pre_prefix(
                    self.nodes@[p as int].childs@,
                    p as int,
                    k as int,
                ),
            decreases n - k,
        {
            proof {
                assert(self.wf_node_at(p as int));
                assert(self.childs_ok(p as int));
            }
            let node = self.nodes.at(p);
            let cid = node.childs[k];
            let cp = match self.nodes.position_of(cid) {
                Some(cp) => cp,
                None => {
                    proof {
                        assert(false);
                    }
                    return results;
                },
            };
            proof {
                assert(p < cp < self.node_count());
            }
            results.push(cid);
            let sub = self.collect_preorder(cp);
            let ghost base = results@;
            let mut t: usize = 0;
            let sl = sub.len();
            while t < sl
                invariant
                    0 <= t <= sl,
                    sl == sub@.len(),
                    results@ == base + sub@.subrange(0, t as int),
                decreases sl - t,
            {
                results.push(sub[t]);
                proof {
                    assert(results@ =~= base + sub@.subrange(0, t + 1 as int));
                }
                t = t + 1;
            }
            proof {
                assert(sub@.subrange(0, sl as int) =~= sub@);
                assert(results@ =~= self.spec_pre_prefix(
                    self.nodes@[p as int].childs@,
                    p as int,
                    k + 1 as int,
                ));
            }
            k = k + 1;
        }
        proof {
            self.lemma_pre_prefix_full(self.nodes@[p as int].childs@, p as int);
            assert(results@ =~= self.spec_preorder(p as int));
        }
        results
    }

    /// Every identifier a preorder walk lists is held by the document.
    pub proof fn lemma_preorder_in_arena(self, p: int)
        requires
            self.wf(),
        ensures
            forall|t: int|
                0 <= t < self.spec_preorder(p).len() ==> self.has_id(
                    #[trigger] self.spec_preorder(p)[t],
                ),
        decreases self.node_count() - p, 1nat, 0nat,
    {
        if 0 <= p < self.node_count() {
            assert(self.wf_node_at(p));
            assert(self.childs_ok(p));
            let cs = self.nodes@[p].childs@;
            assert forall|x: int| 0 <= x < cs.len() implies self.has_id(#[trigger] cs[x]) by {
                let c = self.pos_of(cs[x]);
                lemma_find_id(self.nodes@, cs[x], 0);
                assert(self.nodes@[c].id == cs[x]);
            }
            self.lemma_pre_list_in_arena(cs, p, 0);
            assert forall|t: int|
                0 <= t < self.spec_preorder(p).len() implies self.has_id(
                #[trigger] self.spec_preorder(p)[t]) by {
                assert(self.spec_preorder(p)[t] == self.spec_pre_list(cs, p, 0)[t]);
            }
        }
    }

    proof fn lemma_pre_list_in_arena(self, cs: Seq<u64>, p: int, j: int)
        requires
            self.wf(),
            forall|x: int| 0 <= x < cs.len() ==> self.has_id(#[trigger] cs[x]),
        ensures
            forall|t: int|
                0 <= t < self.spec_pre_list(cs, p, j).len() ==> self.has_id(
                    #[trigger] self.spec_pre_list(cs, p, j)[t],
                ),
        decreases self.node_count() - p, 0nat, cs.len() - j,
    {
        if 0 <= p < self.node_count() && 0 <= j < cs.len() {
            let c = self.pos_of(cs[j]);
            if p < c < self.node_count() {
                self.lemma_preorder_in_arena(c);
            }
            self.lemma_pre_list_in_arena(cs, p, j + 1);
            let head: Seq<u64> = seq![cs[j]] + (if p < c < self.node_count() {
                self.spec_preorder(c)
            } else {
                Seq::empty()
            });
            let tail = self.spec_pre_list(cs, p, j + 1);
            assert forall|t: int|
                0 <= t < self.spec_pre_list(cs, p, j).len() implies self.has_id(
                #[trigger] self.spec_pre_list(cs, p, j)[t]) by {
                if t == 0 {
                    assert(self.spec_pre_list(cs, p, j)[0] == cs[j]);
                } else if t < head.len() {
                    assert(self.spec_pre_list(cs, p, j)[t] == self.spec_preorder(c)[t - 1]);
                } else {
                    assert(self.spec_pre_list(cs, p, j)[t] == tail[t - head.len()]);
                }
            }
        }
    }
}

} // verus!
