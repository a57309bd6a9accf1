//! Path queries: a query is a space-separated list of keys; it matches a
//! node whose key is the last part and whose ancestors carry the earlier
//! parts in order, with gaps allowed. Candidates come from the key index
//! in instance order, so results are in instance order too.

use vstd::prelude::*;
use crate::cache::lemma_cache_find;
use crate::cache::spec_cache_find;
use crate::chars::spec_find_from;
use crate::chars::lemma_find_from;
use crate::chars::lemma_find_skip;
use crate::chars::str_to_chars;
use crate::doc::Hson;
use crate::doc::HsonError;
use crate::node::Node;

verus! {

/// The views of a list of character lists.
pub open spec fn views_of(parts: Seq<Vec<char>>) -> Seq<Seq<char>> {
    parts.map_values(|v: Vec<char>| v@)
}

/// Splitting a text on single spaces, as the string splitter does: empty
/// parts are kept, and the result always holds at least one part.
pub open spec fn spec_split(s: Seq<char>) -> Seq<Seq<char>>
    decreases s.len(),
{
    let sp = spec_find_from(s, 0, ' ', ' ');
    if !(0 <= sp < s.len()) {
        seq![s]
    } else {
        seq![s.subrange(0, sp)] + spec_split(s.subrange(sp + 1, s.len() as int))
    }
}

/// Splits a character list on single spaces.
pub fn split_chars(v: &[char]) -> (r: Vec<Vec<char>>)
    ensures
        views_of(r@) == spec_split(v@),
        r@.len() >= 1,
{
    let len = v.len();
    let mut parts: Vec<Vec<char>> = Vec::new();
    let mut start: usize = 0;
    let mut i: usize = 0;
    proof {
        assert(v@.subrange(0, len as int) =~= v@);
        assert(views_of(parts@) =~= Seq::<Seq<char>>::empty());
        assert(views_of(parts@) + spec_split(v@.subrange(0, len as int)) =~= spec_split(v@));
    }
    while i < len
        invariant
            len == v@.len(),
            0 <= start <= i <= len,
            spec_split(v@) == views_of(parts@) + spec_split(v@.subrange(start as int, len as int)),
            forall|j: int| start <= j < i ==> v@[j] != ' ',
        decreases len - i,
    {
        if v[i] == ' ' {
            let ghost suffix = v@.subrange(start as int, len as int);
            let part = copy_slice(v, start, i);
            let ghost oldparts = parts@;
            parts.push(part);
            proof {
                assert forall|j: int| 0 <= j < i - start implies suffix[j] != ' ' by {
                    assert(suffix[j] == v@[start + j]);
                }
                lemma_find_skip(suffix, i - start, ' ', ' ');
                assert(suffix[i - start] == ' ');
                assert(spec_find_from(suffix, 0, ' ', ' ') == i - start);
                assert(part@ =~= suffix.subrange(0, i - start));
                assert(v@.subrange(i + 1, len as int) =~= suffix.subrange(
                    i - start + 1,
                    suffix.len() as int,
                ));
                assert(views_of(parts@) =~= views_of(oldparts).push(part@));
                assert(views_of(parts@) + spec_split(v@.subrange(i + 1, len as int))
                    =~= spec_split(v@));
            }
            start = i + 1;
        }
        i = i + 1;
    }
    let ghost suffix = v@.subrange(start as int, len as int);
    let part = copy_slice(v, start, len);
    let ghost oldparts = parts@;
    parts.push(part);
    proof {
        assert forall|j: int| 0 <= j < suffix.len() implies suffix[j] != ' ' by {
            assert(suffix[j] == v@[start + j]);
        }
        lemma_find_skip(suffix, suffix.len() as int, ' ', ' ');
        assert(spec_find_from(suffix, 0, ' ', ' ') == suffix.len());
        assert(part@ =~= suffix);
        assert(views_of(parts@) =~= views_of(oldparts).push(part@));
        assert(views_of(parts@) =~= spec_split(v@));
    }
    parts
}

/// Copies a range of a character list.
pub fn copy_slice(v: &[char], a: usize, b: usize) -> (r: Vec<char>)
    requires
        a <= b <= v@.len(),
    ensures
        r@ == v@.subrange(a as int, b as int),
{
    let mut out: Vec<char> = Vec::new();
    let mut i: usize = a;
    while i < b
        invariant
            a <= i <= b <= v@.len(),
            out@ == v@.subrange(a as int, i as int),
        decreases b - i,
    {
        out.push(v[i]);
        proof {
            assert(out@ =~= v@.subrange(a as int, i + 1 as int));
        }
        i = i + 1;
    }
    out
}

impl Hson {
    /// Whether the proper ancestors of the node at position `i` carry the
    /// keys `parts[0..j]` in that order, with other ancestors allowed in
    /// between.
    pub open spec fn spec_chain_match(self, i: int, j: int, parts: Seq<Seq<char>>) -> bool
        decreases i,
    {
        if j <= 0 {
            true
        } else if !(0 <= i < self.node_count()) {
            false
        } else if self.nodes@[i].root {
            false
        } else {
            let p = self.pos_of(self.nodes@[i].parent);
            if 0 <= p < i {
                self.spec_chain_match(p, j, parts) || (self.key_chars_at(p) == parts[j - 1]
                    && self.spec_chain_match(p, j - 1, parts))
            } else {
                false
            }
        }
    }

    /// The candidates that survive the ancestor filter, kept in order.
    pub open spec fn spec_filter_match(self, ids: Seq<u64>, parts: Seq<Seq<char>>) -> Seq<u64>
        decreases ids.len(),
    {
        if ids.len() == 0 {
            Seq::empty()
        } else {
            self.spec_filter_match(ids.drop_last(), parts) + (if self.spec_chain_match(
                self.pos_of(ids.last()),
                parts.len() - 1,
                parts,
            ) {
                seq![ids.last()]
            } else {
                Seq::empty()
            })
        }
    }

    /// What a query returns: the nodes listed under the last part in the
    /// key index, filtered by the ancestor chain, in instance order.
    pub open spec fn spec_retrieve(self, parts: Seq<Seq<char>>) -> Seq<u64> {
        if parts.len() == 0 {
            Seq::empty()
        } else {
            let e = spec_cache_find(self.cache_view(), parts.last(), 0);
            if e >= self.cache_view().len() {
                Seq::empty()
            } else {
                self.spec_filter_match(self.cache_view()[e].ids@, parts)
            }
        }
    }

    /// What `query` returns for a query text.
    pub open spec fn spec_query(self, q: Seq<char>) -> Seq<u64> {
        self.spec_retrieve(spec_split(q))
    }

    /// Decides the ancestor-chain condition by walking parent pointers.
    fn chain_match(&self, i: usize, j: usize, parts: &Vec<Vec<char>>) -> (r: bool)
        requires
            self.wf(),
            i < self.node_count(),
            j < parts@.len(),
        ensures
            r == self.spec_chain_match(i as int, j as int, views_of(parts@)),
        decreases i,
    {
        if j == 0 {
            return true;
        }
        let node = self.nodes.at(i);
        if node.root {
            return false;
        }
        proof {
            assert(self.wf_node_at(i as int));
            assert(self.parent_ok(i as int));
        }
        let p = match self.nodes.position_of(node.parent) {
            Some(p) => p,
            None => {
                proof {
                    assert(false);
                }
                return false;
            },
        };
        proof {
            assert(self.wf_node_at(p as int));
        }
        if self.chain_match(p, j, parts) {
            return true;
        }
        let pn = self.nodes.at(p);
        let key = self.copy_range(pn.key[0], pn.key[1]);
        let matches_key = crate::chars::chars_eq(key.as_slice(), parts[j - 1].as_slice());
        proof {
            assert(key@ == self.key_chars_at(p as int));
            assert(views_of(parts@)[j - 1] == parts@[j - 1]@);
        }
        if matches_key {
            self.chain_match(p, j - 1, parts)
        } else {
            false
        }
    }

    /// Looks the last part up in the key index and keeps the candidates
    /// whose ancestors carry the earlier parts in order.
    fn retrieve(&self, parts: &Vec<Vec<char>>) -> (r: Result<Vec<u64>, HsonError>)
        requires
            self.wf(),
            parts@.len() > 0,
        ensures
            r is Ok,
            r->Ok_0@ == self.spec_retrieve(views_of(parts@)),
    {
        let ghost pviews = views_of(parts@);
        let lastpart = &parts[parts.len() - 1];
        proof {
            assert(pviews.last() == lastpart@);
        }
        match self.cache.find(lastpart.as_slice()) {
            None => {
                proof {
                    lemma_cache_find(self.cache_view(), pviews.last(), 0);
                }
                Ok(Vec::new())
            },
            Some(e) => {
                let ent = &self.cache.entries[e];
                let n = ent.ids.len();
                let mut out: Vec<u64> = Vec::new();
                let mut t: usize = 0;
                proof {
                    assert(self.wf_cache_entry(e as int));
                }
                while t < n
                    invariant
                        self.wf(),
                        parts@.len() > 0,
                        pviews == views_of(parts@),
                        e < self.cache_view().len(),
                        self.wf_cache_entry(e as int),
                        ent == &self.cache.entries[e as int],
                        n == ent.ids@.len(),
                        0 <= t <= n,
                        out@ == self.spec_filter_match(ent.ids@.subrange(0, t as int), pviews),
                    decreases n - t,
                {
                    let id = ent.ids[t];
                    proof {
                        assert(self.cached_id_ok(ent.ids@[t as int], ent.key@));
                    }
                    let p = match self.nodes.position_of(id) {
                        Some(p) => p,
                        None => {
                            proof {
                                assert(false);
                            }
                            return Ok(out);
                        },
                    };
                    let keep = self.chain_match(p, parts.len() - 1, parts);
                    if keep {
                        out.push(id);
                    }
                    proof {
                        let pre = ent.ids@.subrange(0, t as int);
                        let cur = ent.ids@.subrange(0, t + 1 as int);
                        assert(cur.drop_last() =~= pre);
                        assert(cur.last() == id);
                        if keep {
                            assert(out@ =~= self.spec_filter_match(pre, pviews) + seq![id]);
                        } else {
                            assert(out@ =~= self.spec_filter_match(pre, pviews)
                                + Seq::<u64>::empty());
                        }
                    }
                    t = t + 1;
                }
                proof {
                    assert(ent.ids@.subrange(0, n as int) =~= ent.ids@);
                }
                Ok(out)
            },
        }
    }

    /// Every identifier a retrieval returns names a non-root node of the
    /// document.
    pub proof fn lemma_filter_match_ok(self, ids: Seq<u64>, parts: Seq<Seq<char>>, k: Seq<char>)
        requires
            forall|j: int| 0 <= j < ids.len() ==> self.cached_id_ok(#[trigger] ids[j], k),
        ensures
            forall|t: int|
                0 <= t < self.spec_filter_match(ids, parts).len() ==> self.cached_id_ok(
                    #[trigger] self.spec_filter_match(ids, parts)[t],
                    k,
                ),
        decreases ids.len(),
    {
        if ids.len() > 0 {
            assert(forall|j: int|
                0 <= j < ids.drop_last().len() ==> ids.drop_last()[j] == ids[j]);
            self.lemma_filter_match_ok(ids.drop_last(), parts, k);
            let head = self.spec_filter_match(ids.drop_last(), parts);
            assert forall|t: int|
                0 <= t < self.spec_filter_match(ids, parts).len() implies self.cached_id_ok(
                #[trigger] self.spec_filter_match(ids, parts)[t], k) by {
                if t < head.len() {
                    assert(self.spec_filter_match(ids, parts)[t] == head[t]);
                } else {
                    assert(self.spec_filter_match(ids, parts)[t] == ids.last());
                    assert(ids[ids.len() - 1] == ids.last());
                }
            }
        }
    }
}

/// The query surface: path queries over the whole tree or under one node.
pub trait Query {
    /// What a document must satisfy before it can be queried.
    spec fn query_wf(&self) -> bool;

    /// Runs a query over the whole tree.
    fn query(&self, q: &str) -> (r: Result<Vec<u64>, HsonError>)
        requires
            self.query_wf(),
    ;

    /// Runs a query and hands back the matching nodes themselves.
    fn query_nodes(&self, q: &str) -> (r: Result<Vec<&Node>, HsonError>)
        requires
            self.query_wf(),
    ;

    /// Runs a query and keeps only matches under the given node: its
    /// descendants when `recursive`, its direct children otherwise.
    fn query_on(&self, node_id: u64, q: &str, recursive: bool) -> (r: Result<Vec<u64>, HsonError>)
        requires
            self.query_wf(),
    ;

    /// Same restriction, handing back the nodes themselves.
    fn query_on_nodes(&self, node: &Node, q: &str, recursive: bool) -> (r: Result<
        Vec<&Node>,
        HsonError,
    >)
        requires
            self.query_wf(),
    ;
}

impl Hson {
    /// The matches kept by the under-a-node restriction.
    pub open spec fn spec_on_filter(self, ids: Seq<u64>, node_id: u64, recursive: bool) -> Seq<
        u64,
    >
        decreases ids.len(),
    {
        if ids.len() == 0 {
            Seq::empty()
        } else {
            self.spec_on_filter(ids.drop_last(), node_id, recursive) + (if (if recursive {
                self.spec_chain_hits(node_id, self.pos_of(ids.last()))
            } else {
                self.pos_of(ids.last()) < self.node_count() && self.nodes@[self.pos_of(
                    ids.last(),
                )].parent == node_id
            }) {
                seq![ids.last()]
            } else {
                Seq::empty()
            })
        }
    }

    /// What `query_on` returns.
    pub open spec fn spec_query_on(self, node_id: u64, q: Seq<char>, recursive: bool) -> Seq<
        u64,
    > {
        self.spec_on_filter(self.spec_query(q), node_id, recursive)
    }
}

impl Query for Hson {
    open spec fn query_wf(&self) -> bool {
        self.wf()
    }

    fn query(&self, q: &str) -> (r: Result<Vec<u64>, HsonError>)
        ensures
            r is Ok,
            r->Ok_0@ == self.spec_query(q@),
    {
        let chars = str_to_chars(q);
        let parts = split_chars(chars.as_slice());
        let results = match self.retrieve(&parts) {
            Ok(v) => v,
            Err(e) => {
                proof {
                    assert(false);
                }
                return Err(e);
            },
        };
        Ok(results)
    }

    fn query_nodes(&self, q: &str) -> (r: Result<Vec<&Node>, HsonError>)
        ensures
            r is Ok,
            r->Ok_0@.len() == self.spec_query(q@).len(),
            forall|j: int|
                0 <= j < r->Ok_0@.len() ==> *r->Ok_0@[j] == self.node_of(self.spec_query(q@)[j]),
    {
        let chars = str_to_chars(q);
        let parts = split_chars(chars.as_slice());
        let ids = match self.retrieve(&parts) {
            Ok(v) => v,
            Err(e) => {
                proof {
                    assert(false);
                }
                return Err(e);
            },
        };
        let ghost qids = self.spec_query(q@);
        proof {
            self.lemma_query_ids_ok(q@);
        }
        let mut out: Vec<&Node> = Vec::new();
        let mut j: usize = 0;
        while j < ids.len()
            invariant
                self.wf(),
                ids@ == qids,
                forall|t: int|
                    0 <= t < qids.len() ==> 0 <= self.pos_of(#[trigger] qids[t])
                        < self.node_count(),
                0 <= j <= ids@.len(),
                out@.len() == j,
                forall|t: int| 0 <= t < j ==> *out@[t] == self.node_of(qids[t]),
            decreases ids@.len() - j,
        {
            let id = ids[j];
            match self.nodes.position_of(id) {
                Some(p) => {
                    out.push(self.nodes.at(p));
                },
                None => {
                    proof {
                        assert(false);
                    }
                    return Err(HsonError::UnknownIdentifier(id));
                },
            }
            j = j + 1;
        }
        Ok(out)
    }

    fn query_on(&self, node_id: u64, q: &str, recursive: bool) -> (r: Result<Vec<u64>, HsonError>)
        ensures
            r is Ok,
            r->Ok_0@ == self.spec_query_on(node_id, q@, recursive),
    {
        let ids = match self.query(q) {
            Ok(v) => v,
            Err(e) => {
                proof {
                    assert(false);
                }
                return Err(e);
            },
        };
        let ghost qids = self.spec_query(q@);
        let mut out: Vec<u64> = Vec::new();
        let mut j: usize = 0;
        while j < ids.len()
            invariant
                self.wf(),
                ids@ == qids,
                0 <= j <= ids@.len(),
                out@ == self.spec_on_filter(qids.subrange(0, j as int), node_id, recursive),
            decreases ids@.len() - j,
        {
            let id = ids[j];
            let keep = if recursive {
                self.is_descendant(node_id, id)
            } else {
                match self.nodes.position_of(id) {
                    Some(p) => self.nodes.at(p).parent == node_id,
                    None => false,
                }
            };
            proof {
                self.lemma_has_id_find(id);
            }
            if keep {
                out.push(id);
            }
            proof {
                let pre = qids.subrange(0, j as int);
                let cur = qids.subrange(0, j + 1 as int);
                assert(cur.drop_last() =~= pre);
                assert(cur.last() == id);
                if recursive {
                    assert(keep == (self.has_id(id) && self.spec_chain_hits(
                        node_id,
                        self.pos_of(id),
                    )));
                    if self.pos_of(id) >= self.node_count() {
                        assert(!self.spec_chain_hits(node_id, self.pos_of(id)));
                    }
                }
                if keep {
                    assert(out@ =~= self.spec_on_filter(pre, node_id, recursive) + seq![id]);
                } else {
                    assert(out@ =~= self.spec_on_filter(pre, node_id, recursive)
                        + Seq::<u64>::empty());
                }
            }
            j = j + 1;
        }
        proof {
            assert(qids.subrange(0, qids.len() as int) =~= qids);
        }
        Ok(out)
    }

    fn query_on_nodes(&self, node: &Node, q: &str, recursive: bool) -> (r: Result<
        Vec<&Node>,
        HsonError,
    >)
        ensures
            r is Ok,
            r->Ok_0@.len() == self.spec_query_on(node.id, q@, recursive).len(),
            forall|j: int|
                0 <= j < r->Ok_0@.len() ==> *r->Ok_0@[j] == self.node_of(
                    self.spec_query_on(node.id, q@, recursive)[j],
                ),
    {
        let ids = match self.query_on(node.id, q, recursive) {
            Ok(v) => v,
            Err(e) => {
                proof {
                    assert(false);
                }
                return Err(e);
            },
        };
        let ghost qids = self.spec_query_on(node.id, q@, recursive);
        proof {
            self.lemma_on_filter_ok(self.spec_query(q@), node.id, recursive);
        }
        let mut out: Vec<&Node> = Vec::new();
        let mut j: usize = 0;
        while j < ids.len()
            invariant
                self.wf(),
                ids@ == qids,
                forall|t: int|
                    0 <= t < qids.len() ==> 0 <= self.pos_of(#[trigger] qids[t])
                        < self.node_count(),
                0 <= j <= ids@.len(),
                out@.len() == j,
                forall|t: int| 0 <= t < j ==> *out@[t] == self.node_of(qids[t]),
            decreases ids@.len() - j,
        {
            let id = ids[j];
            match self.nodes.position_of(id) {
                Some(p) => {
                    out.push(self.nodes.at(p));
                },
                None => {
                    proof {
                        assert(false);
                    }
                    return Err(HsonError::UnknownIdentifier(id));
                },
            }
            j = j + 1;
        }
        Ok(out)
    }
}

impl Hson {
    /// Every identifier a whole-tree query returns names a node of the
    /// document.
    pub proof fn lemma_query_ids_ok(self, q: Seq<char>)
        requires
            self.wf(),
        ensures
            forall|t: int|
                0 <= t < self.spec_query(q).len() ==> 0 <= self.pos_of(
                    #[trigger] self.spec_query(q)[t],
                ) < self.node_count(),
    {
        let parts = spec_split(q);
        if parts.len() > 0 {
            let e = spec_cache_find(self.cache_view(), parts.last(), 0);
            lemma_cache_find(self.cache_view(), parts.last(), 0);
            if e < self.cache_view().len() {
                assert(self.wf_cache_entry(e));
                self.lemma_filter_match_ok(
                    self.cache_view()[e].ids@,
                    parts,
                    self.cache_view()[e].key@,
                );
                assert forall|t: int|
                    0 <= t < self.spec_query(q).len() implies 0 <= self.pos_of(
                    #[trigger] self.spec_query(q)[t]) < self.node_count() by {
                    assert(self.cached_id_ok(self.spec_query(q)[t], self.cache_view()[e].key@));
                }
            }
        }
    }

    /// Every identifier the under-a-node restriction keeps names a node of
    /// the document.
    pub proof fn lemma_on_filter_ok(self, ids: Seq<u64>, node_id: u64, recursive: bool)
        ensures
            forall|t: int|
                0 <= t < self.spec_on_filter(ids, node_id, recursive).len() ==> 0 <= self.pos_of(
                    #[trigger] self.spec_on_filter(ids, node_id, recursive)[t],
                ) < self.node_count(),
        decreases ids.len(),
    {
        if ids.len() > 0 {
            self.lemma_on_filter_ok(ids.drop_last(), node_id, recursive);
            let head = self.spec_on_filter(ids.drop_last(), node_id, recursive);
            let whole = self.spec_on_filter(ids, node_id, recursive);
            assert forall|t: int|
                0 <= t < whole.len() implies 0 <= self.pos_of(#[trigger] whole[t])
                < self.node_count() by {
                if t < head.len() {
                    assert(whole[t] == head[t]);
                } else {
                    assert(whole[t] == ids.last());
                    if recursive {
                        assert(self.spec_chain_hits(node_id, self.pos_of(ids.last())));
                        crate::nodemap::lemma_find_id(self.nodes@, ids.last(), 0);
                    } else {
                        crate::nodemap::lemma_find_id(self.nodes@, ids.last(), 0);
                    }
                }
            }
        }
    }
}

} // verus!
