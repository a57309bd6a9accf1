//! Building the key index from the arena. The index is a secondary store:
//! after any edit it is derived afresh from the arena and the buffer, which
//! re-establishes its invariant wholesale.

use vstd::prelude::*;
use crate::cache::CacheEntry;
use crate::cache::KeyCache;
use crate::cache::lemma_cache_find;
use crate::cache::lemma_cache_find_push;
use crate::cache::lemma_cache_find_same_keys;
use crate::cache::spec_cache_find;
use crate::doc::Hson;

verus! {

impl Hson {
    /// Records one identifier under one key: appends to the key's entry, or
    /// opens a new entry for a key not seen yet.
    fn caching(&mut self, key: Vec<char>, node_id: u64)
        ensures
            final(self).nodes@ == old(self).nodes@,
            final(self).indexes@ == old(self).indexes@,
            final(self).buffer() == old(self).buffer(),
            final(self).spec_base() == old(self).spec_base(),
            final(self).spec_instances() == old(self).spec_instances(),
            final(self).spec_id_count() == old(self).spec_id_count(),
            final(self).spec_iter_count() == old(self).spec_iter_count(),
            ({
                let e = spec_cache_find(old(self).cache_view(), key@, 0);
                if e < old(self).cache_view().len() {
                    &&& final(self).cache_view().len() == old(self).cache_view().len()
                    &&& final(self).cache_view()[e].key@ == key@
                    &&& final(self).cache_view()[e].ids@ == old(self).cache_view()[e].ids@.push(
                        node_id,
                    )
                    &&& forall|j: int|
                        0 <= j < old(self).cache_view().len() && j != e
                            ==> final(self).cache_view()[j] == old(self).cache_view()[j]
                } else {
                    &&& final(self).cache_view().len() == old(self).cache_view().len() + 1
                    &&& final(self).cache_view()[e].key@ == key@
                    &&& final(self).cache_view()[e].ids@ == seq![node_id]
                    &&& forall|j: int|
                        0 <= j < old(self).cache_view().len() ==> final(self).cache_view()[j]
                            == old(self).cache_view()[j]
                }
            }),
    {
        let found = self.cache.find(key.as_slice());
        match found {
            Some(e) => {
                let ent = &self.cache.entries[e];
                let mut ids = crate::doc::clone_ids(&ent.ids);
                ids.push(node_id);
                let key2 = self.copy_chars(&ent.key);
                let updated = CacheEntry { key: key2, ids };
                self.cache.entries.set(e, updated);
            },
            None => {
                let mut ids: Vec<u64> = Vec::new();
                ids.push(node_id);
                proof {
                    assert(ids@ =~= seq![node_id]);
                }
                self.cache.entries.push(CacheEntry { key, ids });
            },
        }
    }

    /// Copies a character list.
    fn copy_chars(&self, v: &Vec<char>) -> (r: Vec<char>)
        ensures
            r@ == v@,
    {
        let mut out: Vec<char> = Vec::new();
        let mut i: usize = 0;
        while i < v.len()
            invariant
                0 <= i <= v@.len(),
                out@ == v@.subrange(0, i as int),
            decreases v@.len() - i,
        {
            out.push(v[i]);
            proof {
                assert(out@ =~= v@.subrange(0, i + 1 as int));
            }
            i = i + 1;
        }
        proof {
            assert(out@ =~= v@);
        }
        out
    }

    /// Derives the key index afresh from the arena: every non-root node
    /// with a non-empty key is listed under the key text its range points
    /// at, in instance order.
    pub fn rebuild_cache(&mut self)
        requires
            old(self).wf_arena(),
        ensures
            final(self).nodes@ == old(self).nodes@,
            final(self).indexes@ == old(self).indexes@,
            final(self).buffer() == old(self).buffer(),
            final(self).spec_base() == old(self).spec_base(),
            final(self).spec_instances() == old(self).spec_instances(),
            final(self).spec_id_count() == old(self).spec_id_count(),
            final(self).wf_arena(),
            final(self).wf_cache(),
    {
        self.cache = KeyCache::new();
        let n = self.nodes.len();
        proof {
            Hson::lemma_wf_arena_same(*old(self), *self);
            assert(self.wf_cache_upto(0));
        }
        let mut m: usize = 0;
        while m < n
            invariant
                n == self.nodes@.len(),
                0 <= m <= n,
                self.nodes@ == old(self).nodes@,
                self.indexes@ == old(self).indexes@,
                self.buffer() == old(self).buffer(),
                self.spec_base() == old(self).spec_base(),
                self.spec_instances() == old(self).spec_instances(),
                self.spec_id_count() == old(self).spec_id_count(),
                self.wf_arena(),
                self.wf_cache_upto(m as int),
            decreases n - m,
        {
            let node = self.nodes.at(m);
            let k0 = node.key[0];
            let k1 = node.key[1];
            let id = node.id;
            proof {
                assert(self.wf_node_at(m as int));
            }
            if m > 0 && k0 < k1 {
                let key = self.copy_range(k0, k1);
                let ghost pre = *self;
                proof {
                    pre.lemma_pos_of_id(m as int);
                    lemma_cache_find(pre.cache_view(), key@, 0);
                }
                self.caching(key, id);
                proof {
                    Hson::lemma_wf_arena_same(pre, *self);
                    Hson::lemma_node_preds_same(pre, *self);
                    let e = spec_cache_find(pre.cache_view(), key@, 0);
                    let cv = self.cache_view();
                    let pv = pre.cache_view();
                    assert(key@ == self.key_chars_at(m as int));
                    assert(self.pos_of(id) == m);
                    // the find position over the new entries is unchanged for
                    // every key, because the keys are unchanged
                    assert forall|k2: Seq<char>| #[trigger] spec_cache_find(cv, k2, 0)
                        == spec_cache_find(pv, k2, 0) || (e >= pv.len() && spec_cache_find(
                        pv,
                        k2,
                        0,
                    ) == pv.len() && k2 == key@ && spec_cache_find(cv, k2, 0) == e) || (e
                        >= pv.len() && spec_cache_find(pv, k2, 0) == pv.len() && k2 != key@
                        && spec_cache_find(cv, k2, 0) == cv.len()) by {
                        if e < pv.len() {
                            assert(forall|j: int|
                                0 <= j < pv.len() ==> cv[j].key@ == pv[j].key@);
                            lemma_cache_find_same_keys(cv, pv, k2, 0);
                        } else {
                            let x = cv[pv.len() as int];
                            assert(cv =~= pv.push(x));
                            lemma_cache_find_push(pv, x, k2, 0);
                            lemma_cache_find(pv, k2, 0);
                        }
                    }
                    let m1: int = m + 1;
                    // every entry stays well-formed one step further
                    assert forall|ei: int| 0 <= ei < cv.len() implies self.wf_cache_entry_upto(
                        ei,
                        m1,
                    ) by {
                        if e < pv.len() {
                            if ei == e {
                                let oldids = pv[e].ids@;
                                assert(cv[e].ids@ == oldids.push(id));
                                assert(pre.wf_cache_entry_upto(e, m as int));
                                assert forall|a: int, b: int|
                                    0 <= a < b < cv[e].ids@.len() implies self.pos_of(
                                    #[trigger] cv[e].ids@[a]) < self.pos_of(
                                    #[trigger] cv[e].ids@[b]) by {
                                    if b < oldids.len() {
                                        assert(pre.pos_of(oldids[a]) < pre.pos_of(oldids[b]));
                                    } else {
                                        assert(cv[e].ids@[b] == id);
                                        assert(pre.pos_of(oldids[a]) < m);
                                    }
                                }
                                assert(self.cached_id_ok(id, cv[e].key@));
                            } else {
                                assert(cv[ei] == pv[ei]);
                                assert(pre.wf_cache_entry_upto(ei, m as int));
                            }
                        } else {
                            if ei < pv.len() {
                                assert(cv[ei] == pv[ei]);
                                assert(pre.wf_cache_entry_upto(ei, m as int));
                            } else {
                                assert(ei == e);
                                assert(cv[ei].ids@ == seq![id]);
                                assert(self.cached_id_ok(id, cv[ei].key@));
                            }
                        }
                    }
                    // keys stay pairwise distinct
                    assert forall|a: int, b: int| 0 <= a < b < cv.len() implies cv[a].key@ != cv[
                        b
                    ].key@ by {
                        if b < pv.len() {
                            assert(cv[a].key@ == pv[a].key@ && cv[b].key@ == pv[b].key@);
                        } else if e >= pv.len() {
                            assert(b == e);
                            assert(cv[b].key@ == key@);
                            assert(cv[a].key@ == pv[a].key@);
                            assert(spec_cache_find(pv, key@, 0) == pv.len());
                            lemma_cache_find(pv, key@, 0);
                        }
                    }
                    // nodes listed before stay listed; the new node is listed
                    assert forall|i: int|
                        1 <= i < m + 1 && self.nodes@[i].key[0] < self.nodes@[i].key[1] implies
                        self.cache_has_node(i) by {
                        if i < m {
                            assert(pre.cache_has_node(i));
                            let ki = pre.key_chars_at(i);
                            let fi = spec_cache_find(pv, ki, 0);
                            lemma_cache_find(pv, ki, 0);
                            lemma_cache_find(cv, ki, 0);
                            assert(self.key_chars_at(i) == ki);
                            if e < pv.len() {
                                assert(spec_cache_find(cv, ki, 0) == fi);
                                if fi == e {
                                    assert(cv[fi].ids@ == pv[fi].ids@.push(id));
                                    let w = choose|w: int|
                                        0 <= w < pv[fi].ids@.len() && pv[fi].ids@[w] == pre.nodes@[
                                            i
                                        ].id;
                                    assert(cv[fi].ids@[w] == pre.nodes@[i].id);
                                } else {
                                    assert(cv[fi] == pv[fi]);
                                }
                            } else {
                                assert(fi < pv.len());
                                assert(spec_cache_find(cv, ki, 0) == fi);
                                assert(cv[fi] == pv[fi]);
                            }
                        } else {
                            assert(i == m);
                            let f = spec_cache_find(cv, key@, 0);
                            if e < pv.len() {
                                assert(f == e);
                                assert(cv[e].ids@ == pv[e].ids@.push(id));
                                assert(cv[e].ids@[cv[e].ids@.len() - 1] == id);
                            } else {
                                assert(f == e);
                                assert(cv[e].ids@ == seq![id]);
                                assert(cv[e].ids@[0] == id);
                            }
                        }
                    }
                    assert(self.wf_cache_upto(m + 1));
                }
            } else {
                proof {
                    let m1: int = m + 1;
                    assert forall|ei: int| 0 <= ei < self.cache_view().len() implies
                        self.wf_cache_entry_upto(ei, m1) by {
                        assert(self.wf_cache_entry_upto(ei, m as int));
                    }
                    assert forall|i: int|
                        1 <= i < m + 1 && self.nodes@[i].key[0] < self.nodes@[i].key[1] implies
                        self.cache_has_node(i) by {
                        if i < m {
                            assert(self.cache_has_node(i));
                        }
                    }
                    assert(self.wf_cache_upto(m + 1));
                }
            }
            m = m + 1;
        }
        proof {
            self.lemma_cache_upto_full();
        }
    }
}

} // verus!
