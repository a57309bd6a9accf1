//! The positional edit engine: removing a sub-tree excises its text span
//! and rebuilds the arena with every stored offset and instance shifted;
//! inserting a fragment splices its text and grafts its nodes. Either way
//! the key index is derived afresh afterwards.

use vstd::prelude::*;
use crate::doc::Hson;
use crate::doc::HsonError;
use crate::node::Kind;
use crate::node::Node;
use crate::nodemap::NodeMap;
use crate::nodemap::lemma_find_id;

verus! {

/// The fragment text as the insertion reads it: cleaned, and, for an
/// insertion in the middle of existing children, self-terminated with a
/// comma before its closing bracket unless one is already there.
pub open spec fn spec_fragment_text(s: Seq<char>, middle_comma: bool) -> Seq<char> {
    let cl = crate::chars::spec_clean(s);
    if middle_comma && cl.len() >= 2 && cl[cl.len() - 2] != ',' {
        cl.subrange(0, cl.len() - 1) + seq![','] + seq![cl.last()]
    } else {
        cl
    }
}

/// Whether a fragment text can be inserted: its comma-adjusted, cleaned
/// form is an accepted document of at least one node within its outer
/// brackets.
pub open spec fn spec_fragment_ok(s: Seq<char>, middle: bool) -> bool {
    let t = crate::chars::spec_clean(spec_fragment_text(s, middle));
    &&& crate::scan::spec_accepts(t)
    &&& t.len() >= 2
    &&& crate::scan::spec_parse_result(t)->Some_0.len() > 0
}

/// Whether an insertion lands in the middle of the target's children, so
/// the fragment must carry its own separating comma.
pub open spec fn spec_insert_middle(pre: Hson, node_id: u64, idx: int) -> bool {
    idx < pre.node_of(node_id).childs@.len()
}

/// Whether an insertion appends after the target's last child, so a
/// separating comma goes into the buffer before the fragment's body.
pub open spec fn spec_append_comma(pre: Hson, node_id: u64, idx: int) -> bool {
    idx > 0 && !spec_insert_middle(pre, node_id, idx)
}

/// The grafted children realize the fragment's own document: each adoptee
/// is a root child of the fragment's arena, all of them and in order, with
/// its kind kept and its ranges carried to the splice point.
pub open spec fn spec_adoptees_from_fragment(
    post: Hson,
    s: Seq<char>,
    middle: bool,
    append: bool,
    sp: int,
    ad: Seq<u64>,
    aq: Seq<int>,
) -> bool {
    let fm = crate::scan::spec_parse_result(
        crate::chars::spec_clean(spec_fragment_text(s, middle)),
    )->Some_0;
    let commaoff: int = if append {
        1
    } else {
        0
    };
    let newlen = post.buffer().len() as int;
    &&& aq.len() == ad.len()
    &&& (forall|x: int, y: int| 0 <= x < y < aq.len() ==> aq[x] < aq[y])
    &&& (forall|j: int|
        0 <= j < aq.len() ==> 1 <= #[trigger] aq[j] < fm.len() && fm[aq[j]].parentpos == 0)
    &&& (forall|q: int| 1 <= q < fm.len() && fm[q].parentpos == 0 ==> aq.contains(q))
    &&& (forall|j: int|
        0 <= j < ad.len() ==> {
            let m = fm[aq[j]];
            let n1 = post.node_of(#[trigger] ad[j]);
            &&& post.pos_of(ad[j]) < post.node_count()
            &&& n1.kind == m.kind
            &&& n1.key[0] == spec_frag_coord(m.key0, sp, commaoff, newlen)
            &&& n1.key[1] == spec_frag_coord(m.key1, sp, commaoff, newlen)
            &&& n1.value[0] == spec_frag_coord(m.val0, sp, commaoff, newlen)
            &&& n1.value[1] == spec_frag_coord(m.val1, sp, commaoff, newlen)
        })
}

/// Where an insertion splices, as spec names it: just inside the target's
/// opening bracket for the first position, just past the prior sibling's
/// text (and the separating comma, when one already stands there)
/// otherwise, clamped into the buffer.
pub open spec fn spec_splice_point(pre: Hson, node_id: u64, idx: int) -> int {
    let p = pre.pos_of(node_id);
    let n = pre.nodes@[p];
    let len = pre.buffer().len() as int;
    let clen = n.childs@.len() as int;
    if clen == 0 || idx == 0 {
        if n.value[0] as int <= len {
            n.value[0] as int
        } else {
            len
        }
    } else {
        let ci = if idx - 1 < clen {
            idx - 1
        } else {
            clen - 1
        };
        let c = pre.pos_of(n.childs@[ci]);
        let cn = pre.nodes@[c];
        let delim = cn.kind == Kind::Node || cn.kind == Kind::Array || cn.kind == Kind::String;
        let endpos: int = if delim {
            if cn.value[1] < len {
                cn.value[1] + 1
            } else {
                len
            }
        } else {
            cn.value[1] as int
        };
        let raw: int = if idx < clen {
            if endpos < len {
                endpos + 1
            } else {
                len
            }
        } else {
            endpos
        };
        if raw <= len {
            raw
        } else {
            len
        }
    }
}

/// The characters an insertion splices into the buffer: the fragment
/// text's interior, between its outer brackets, cleaned once more as the
/// sub-parser reads it.
pub open spec fn spec_frag_interior(s: Seq<char>, middle_comma: bool) -> Seq<char> {
    let t = crate::chars::spec_clean(spec_fragment_text(s, middle_comma));
    if t.len() >= 2 {
        t.subrange(1, t.len() - 1)
    } else {
        Seq::empty()
    }
}

impl Hson {
    /// What an insertion does: the spliced characters sit at one point of
    /// the buffer, the target's child list gains exactly the adoptees at
    /// the asked position, the adoptees are fresh and point at the target,
    /// and every pre-existing node keeps its fields, with its offsets
    /// moved across the splice.
    pub open spec fn spec_insert_effect(
        pre: Hson,
        post: Hson,
        node_id: u64,
        idx: int,
        mid: Seq<char>,
        sp: int,
        ad: Seq<u64>,
    ) -> bool {
        let clen = pre.node_of(node_id).childs@.len() as int;
        let idxm = if idx <= clen {
            idx
        } else {
            clen
        };
        let tl = mid.len() as int;
        &&& 0 <= sp <= pre.buffer().len()
        &&& post.buffer() == pre.buffer().subrange(0, sp) + mid + pre.buffer().subrange(
            sp,
            pre.buffer().len() as int,
        )
        &&& post.has_id(node_id)
        &&& post.node_of(node_id).childs@ == pre.node_of(node_id).childs@.subrange(0, idxm) + ad
            + pre.node_of(node_id).childs@.subrange(idxm, clen)
        &&& (forall|j: int|
            0 <= j < ad.len() ==> !pre.has_id(#[trigger] ad[j]) && post.has_id(ad[j])
                && post.node_of(ad[j]).parent == node_id)
        &&& (forall|id: u64|
            #[trigger] post.has_id(id) ==> pre.has_id(id) || id > pre.spec_id_count())
        &&& (forall|id: u64|
            #[trigger] pre.has_id(id) ==> post.has_id(id) && ({
                let n0 = pre.node_of(id);
                let n1 = post.node_of(id);
                let delim = n0.kind == Kind::Node || n0.kind == Kind::Array || n0.kind
                    == Kind::String;
                &&& n1.kind == n0.kind
                &&& n1.root == n0.root
                &&& n1.opened == n0.opened
                &&& n1.parent == n0.parent
                &&& (id != node_id ==> n1.childs@ == n0.childs@)
                &&& n1.key[0] == spec_ins_k0(n0.key[0] as int, sp, tl)
                &&& n1.key[1] == spec_ins_k1(n0.key[0] as int, n0.key[1] as int, sp, tl)
                &&& n1.value[0] == spec_ins_v0(n0.value[0] as int, sp, tl, id == node_id)
                &&& n1.value[1] == spec_ins_v1(
                    n0.value[0] as int,
                    n0.value[1] as int,
                    sp,
                    tl,
                    id == node_id,
                    delim,
                )
                &&& ((n0.key[1] <= sp || n0.key[0] >= sp) ==> post.buffer().subrange(
                    n1.key[0] as int,
                    n1.key[1] as int,
                ) == pre.buffer().subrange(n0.key[0] as int, n0.key[1] as int))
                &&& ((id != node_id && (n0.value[1] < sp || n0.value[0] >= sp))
                    ==> post.buffer().subrange(n1.value[0] as int, n1.value[1] as int)
                    == pre.buffer().subrange(n0.value[0] as int, n0.value[1] as int))
            }))
    }

    /// What a removal does, beyond the survival facts: the whole sub-tree
    /// is gone, and every surviving node keeps its fields, with its offsets
    /// moved across the cut span and the freed slot taken out of its
    /// former parent's child list.
    pub open spec fn spec_remove_effect(pre: Hson, post: Hson, node_id: u64) -> bool {
        let span = pre.spec_cut_span(pre.pos_of(node_id));
        &&& (forall|id: u64|
            pre.spec_descendants(pre.pos_of(node_id)).contains(id) ==> !(
            #[trigger] post.has_id(id)))
        &&& (forall|id: u64|
            #[trigger] post.has_id(id) ==> ({
                let n0 = pre.node_of(id);
                let n1 = post.node_of(id);
                &&& n1.kind == n0.kind
                &&& n1.root == n0.root
                &&& n1.opened == n0.opened
                &&& n1.parent == n0.parent
                &&& n1.key[0] == spec_cut_coord(n0.key[0] as int, span.0, span.1)
                &&& n1.key[1] == spec_cut_coord(n0.key[1] as int, span.0, span.1)
                &&& n1.value[0] == spec_cut_coord(n0.value[0] as int, span.0, span.1)
                &&& n1.value[1] == spec_cut_coord(n0.value[1] as int, span.0, span.1)
                &&& n1.childs@ == (if n0.id == pre.node_of(node_id).parent {
                    spec_without(n0.childs@, node_id)
                } else {
                    n0.childs@
                })
                &&& ((n0.key[1] <= span.0 || n0.key[0] >= span.1) ==> post.buffer().subrange(
                    n1.key[0] as int,
                    n1.key[1] as int,
                ) == pre.buffer().subrange(n0.key[0] as int, n0.key[1] as int))
                &&& ((n0.value[1] <= span.0 || n0.value[0] >= span.1) ==> post.buffer().subrange(
                    n1.value[0] as int,
                    n1.value[1] as int,
                ) == pre.buffer().subrange(n0.value[0] as int, n0.value[1] as int))
            }))
    }

    /// The buffer span a removal cuts for the node at position `p`: from
    /// the quote opening its key (or its own opening delimiter) to just
    /// past its closing delimiter, extended over one separating comma,
    /// the following one when there is one, else a preceding one.
    pub open spec fn spec_cut_span(self, p: int) -> (int, int) {
        let n = self.nodes@[p];
        let delim = n.kind == Kind::Node || n.kind == Kind::Array || n.kind == Kind::String;
        let len = self.buffer().len() as int;
        let a0: int = if n.key[0] < n.key[1] {
            if n.key[0] > 0 {
                n.key[0] - 1
            } else {
                0
            }
        } else if delim && n.value[0] > 0 {
            n.value[0] - 1
        } else {
            n.value[0] as int
        };
        let b0: int = if delim {
            if n.value[1] < len {
                n.value[1] + 1
            } else {
                len
            }
        } else {
            n.value[1] as int
        };
        let a1 = if a0 > b0 {
            b0
        } else {
            a0
        };
        if b0 < len && self.buffer()[b0] == ',' {
            (a1, b0 + 1)
        } else if a1 > 0 && self.buffer()[a1 - 1] == ',' {
            (a1 - 1, b0)
        } else {
            (a1, b0)
        }
    }
}

/// How one buffer coordinate moves when the span `[a, b)` of length
/// `b - a` is cut: coordinates past the span shift left, coordinates
/// inside it collapse onto its start.
pub open spec fn spec_cut_coord(c: int, a: int, b: int) -> int {
    if c >= b {
        c - (b - a)
    } else if c > a {
        a
    } else {
        c
    }
}

/// The list with every occurrence of one identifier dropped.
pub open spec fn spec_without(s: Seq<u64>, id: u64) -> Seq<u64> {
    s.filter(|x: u64| x != id)
}

/// Removes every occurrence of one identifier from a list.
pub fn remove_id_from(v: &Vec<u64>, id: u64) -> (r: Vec<u64>)
    ensures
        r@ == spec_without(v@, id),
        forall|j: int| 0 <= j < r@.len() ==> r@[j] != id,
        forall|y: u64| y != id ==> (r@.contains(y) <==> v@.contains(y)),
        (forall|x: int, y: int| 0 <= x < y < v@.len() ==> v@[x] != v@[y]) ==> (forall|
            x: int,
            y: int,
        |
            0 <= x < y < r@.len() ==> r@[x] != r@[y]),
        v@.contains(id) || r@.len() == v@.len(),
        r@.len() <= v@.len(),
{
    let mut out: Vec<u64> = Vec::new();
    let mut i: usize = 0;
    while i < v.len()
        invariant
            0 <= i <= v@.len(),
            out@ == spec_without(v@.subrange(0, i as int), id),
        decreases v@.len() - i,
    {
        let x = v[i];
        let ghost pre = v@.subrange(0, i as int);
        let ghost cur = v@.subrange(0, i + 1 as int);
        if x != id {
            out.push(x);
        }
        proof {
            assert(cur.drop_last() =~= pre);
            assert(cur.last() == x);
            reveal_with_fuel(Seq::filter, 2);
            assert(spec_without(cur, id) == if x != id {
                spec_without(pre, id).push(x)
            } else {
                spec_without(pre, id)
            });
        }
        i = i + 1;
    }
    proof {
        assert(v@.subrange(0, v@.len() as int) =~= v@);
        lemma_filter_props(v@, id);
    }
    out
}

/// What filtering one identifier out keeps: everything else, in order,
/// without introducing duplicates.
proof fn lemma_filter_props(s: Seq<u64>, id: u64)
    ensures
        forall|j: int| 0 <= j < spec_without(s, id).len() ==> #[trigger] spec_without(s, id)[j]
            != id,
        forall|y: u64|
            y != id ==> (spec_without(s, id).contains(y) <==> s.contains(y)),
        (forall|x: int, y: int| 0 <= x < y < s.len() ==> s[x] != s[y]) ==> (forall|
            x: int,
            y: int,
        |
            0 <= x < y < spec_without(s, id).len() ==> #[trigger] spec_without(s, id)[x]
                != #[trigger] spec_without(s, id)[y]),
        spec_without(s, id).len() <= s.len(),
        s.contains(id) || spec_without(s, id).len() == s.len(),
    decreases s.len(),
{
    reveal_with_fuel(Seq::filter, 2);
    let f = spec_without(s, id);
    if s.len() == 0 {
    } else {
        let butlast = s.drop_last();
        lemma_filter_props(butlast, id);
        let fb = spec_without(butlast, id);
        assert(f == if s.last() != id {
            fb.push(s.last())
        } else {
            fb
        });
        assert forall|y: u64| y != id implies (f.contains(y) <==> s.contains(y)) by {
            if f.contains(y) {
                let w = choose|w: int| 0 <= w < f.len() && f[w] == y;
                if s.last() != id && w == f.len() - 1 {
                    assert(s[s.len() - 1] == y);
                } else {
                    assert(w < fb.len());
                    assert(fb[w] == y);
                    assert(fb.contains(y));
                    assert(butlast.contains(y));
                    let w2 = choose|w2: int| 0 <= w2 < butlast.len() && butlast[w2] == y;
                    assert(s[w2] == y);
                }
            }
            if s.contains(y) {
                let w = choose|w: int| 0 <= w < s.len() && s[w] == y;
                if w == s.len() - 1 {
                    if s.last() != id {
                        assert(f[f.len() - 1] == y);
                    }
                } else {
                    assert(butlast[w] == y);
                    assert(fb.contains(y));
                    let w2 = choose|w2: int| 0 <= w2 < fb.len() && fb[w2] == y;
                    assert(f[w2] == y);
                }
            }
        }
        if forall|x: int, y: int| 0 <= x < y < s.len() ==> s[x] != s[y] {
            assert(forall|x: int, y: int|
                0 <= x < y < butlast.len() ==> butlast[x] != butlast[y]);
            if s.last() != id {
                assert forall|x: int, y: int| 0 <= x < y < f.len() implies f[x] != f[y] by {
                    if y == f.len() - 1 {
                        assert(f[y] == s.last());
                        assert(fb[x] == f[x]);
                        if f[x] == s.last() {
                            assert(fb.contains(s.last()));
                            assert(butlast.contains(s.last()));
                            let w = choose|w: int|
                                0 <= w < butlast.len() && butlast[w] == s.last();
                            assert(butlast[w] == s[w]);
                            assert(s[w] == s[s.len() - 1]);
                            assert(false);
                        }
                    } else {
                        assert(f[x] == fb[x]);
                        assert(f[y] == fb[y]);
                    }
                }
            }
        }
        if s.contains(id) && !butlast.contains(id) {
            let w = choose|w: int| 0 <= w < s.len() && s[w] == id;
            if w < s.len() - 1 {
                assert(butlast[w] == id);
            }
            assert(s.last() == id);
        }
    }
}

impl Hson {
    /// Copies the buffer with the span `[a, b)` cut out.
    pub fn build_cut_buffer(&self, a: usize, b: usize) -> (r: Vec<char>)
        requires
            a <= b <= self.buffer().len(),
        ensures
            r@ == self.buffer().subrange(0, a as int) + self.buffer().subrange(
                b as int,
                self.buffer().len() as int,
            ),
    {
        let mut out = self.copy_range(0, a);
        let mut i: usize = b;
        let len = self.data.len();
        while i < len
            invariant
                b <= i <= len,
                len == self.data@.len(),
                a <= b <= len,
                out@ == self.data@.subrange(0, a as int) + self.data@.subrange(b as int, i as int),
            decreases len - i,
        {
            out.push(self.data[i]);
            proof {
                assert(out@ =~= self.data@.subrange(0, a as int) + self.data@.subrange(
                    b as int,
                    i + 1 as int,
                ));
            }
            i = i + 1;
        }
        proof {
            assert(self.data@.subrange(b as int, b as int) =~= Seq::<char>::empty());
            assert(out@ =~= self.data@.subrange(0, a as int) + self.data@.subrange(
                b as int,
                len as int,
            ));
        }
        out
    }
}


/// The edit surface: inserting a fragment under a node and removing a
/// sub-tree.
pub trait Ops {
    /// What a document and a fragment must satisfy before an insertion.
    spec fn can_insert(&self, s: Seq<char>) -> bool;

    /// What a document must satisfy before a removal.
    spec fn can_remove(&self, node_id: u64) -> bool;

    /// Inserts a fragment's children under a node at a child position.
    fn insert(&mut self, node_id: u64, idx: usize, s: &str) -> (r: Result<(), HsonError>)
        requires
            old(self).can_insert(s@),
    ;

    /// Removes a node and everything beneath it.
    fn remove(&mut self, node_id: u64) -> (r: Result<(), HsonError>)
        requires
            old(self).can_remove(node_id),
    ;
}

impl Hson {
    /// A buffer position is gone after the removal of the sub-tree at
    /// position `p` exactly when the span computed for it covers it; this
    /// predicate names the marked arena positions instead: the node itself
    /// and its transitive children.
    pub open spec fn spec_gone(self, p: int, t: int) -> bool {
        t == p || self.spec_descendants(p).contains(self.nodes@[t].id)
    }

    /// Marks the arena positions of a node and its transitive children.
    fn subtree_marks(&self, p: usize, desc: &Vec<u64>) -> (r: Vec<bool>)
        requires
            self.wf(),
            p < self.node_count(),
            desc@ == self.spec_descendants(p as int),
        ensures
            r@.len() == self.node_count(),
            forall|t: int| 0 <= t < r@.len() ==> r@[t] == self.spec_gone(p as int, t),
    {
        let n = self.nodes.len();
        let mut marked: Vec<bool> = Vec::new();
        let mut t: usize = 0;
        while t < n
            invariant
                n == self.node_count(),
                0 <= t <= n,
                marked@.len() == t,
                forall|x: int| 0 <= x < t ==> marked@[x] == (x == p as int),
            decreases n - t,
        {
            marked.push(t == p);
            t = t + 1;
        }
        let mut j: usize = 0;
        proof {
            self.lemma_descendants_in_arena(p as int);
        }
        while j < desc.len()
            invariant
                self.wf(),
                p < self.node_count(),
                desc@ == self.spec_descendants(p as int),
                forall|x: int| 0 <= x < desc@.len() ==> self.has_id(#[trigger] desc@[x]),
                0 <= j <= desc@.len(),
                marked@.len() == self.node_count(),
                forall|x: int|
                    0 <= x < marked@.len() ==> marked@[x] == (x == p as int || desc@.subrange(
                        0,
                        j as int,
                    ).contains(self.nodes@[x].id)),
            decreases desc@.len() - j,
        {
            let id = desc[j];
            proof {
                self.lemma_has_id_find(id);
            }
            let q = match self.nodes.position_of(id) {
                Some(q) => q,
                None => {
                    proof {
                        assert(false);
                    }
                    return marked;
                },
            };
            let ghost oldmarked = marked@;
            marked.set(q, true);
            proof {
                let pre = desc@.subrange(0, j as int);
                let cur = desc@.subrange(0, j + 1 as int);
                assert forall|x: int|
                    0 <= x < marked@.len() implies marked@[x] == (x == p as int || cur.contains(
                    self.nodes@[x].id)) by {
                    if x == q {
                        assert(cur[j as int] == id);
                        assert(self.nodes@[q as int].id == id);
                        assert(cur.contains(self.nodes@[x].id));
                    } else {
                        assert(marked@[x] == oldmarked[x]);
                        if cur.contains(self.nodes@[x].id) {
                            let w = choose|w: int|
                                0 <= w < cur.len() && cur[w] == self.nodes@[x].id;
                            if w == j {
                                self.lemma_pos_of_id(x);
                                assert(false);
                            } else {
                                assert(pre[w] == self.nodes@[x].id);
                            }
                        }
                        if pre.contains(self.nodes@[x].id) {
                            let w = choose|w: int|
                                0 <= w < pre.len() && pre[w] == self.nodes@[x].id;
                            assert(cur[w] == self.nodes@[x].id);
                        }
                    }
                }
            }
            j = j + 1;
        }
        proof {
            assert(desc@.subrange(0, desc@.len() as int) =~= desc@);
        }
        marked
    }
}

impl Ops for Hson {
    open spec fn can_insert(&self, s: Seq<char>) -> bool {
        &&& self.wf()
        &&& self.spec_id_count() + s.len() + 8 < u64::MAX
        &&& self.spec_instances() + s.len() + 8 < u64::MAX
        &&& self.buffer().len() + s.len() + 8 < usize::MAX
    }

    open spec fn can_remove(&self, node_id: u64) -> bool {
        &&& self.wf()
        &&& (self.has_id(node_id) ==> !self.node_of(node_id).root)
    }

    fn insert(&mut self, node_id: u64, idx: usize, s: &str) -> (r: Result<(), HsonError>)
        ensures
            r is Err ==> *final(self) == *old(self),
            r == Err::<(), HsonError>(HsonError::UnknownIdentifier(node_id)) <==> !old(
                self,
            ).has_id(node_id),
            (old(self).has_id(node_id) && idx > 0 && idx > old(self).node_of(
                node_id,
            ).childs@.len()) <==> r == Err::<(), HsonError>(HsonError::BadPosition(idx)),
            r is Ok <==> (old(self).has_id(node_id) && !(idx > 0 && idx > old(self).node_of(
                node_id,
            ).childs@.len()) && spec_fragment_ok(
                s@,
                spec_insert_middle(*old(self), node_id, idx as int),
            )),
            r == Err::<(), HsonError>(HsonError::FragmentError) <==> (old(self).has_id(node_id)
                && !(idx > 0 && idx > old(self).node_of(node_id).childs@.len())
                && !spec_fragment_ok(
                s@,
                spec_insert_middle(*old(self), node_id, idx as int),
            )),
            r is Ok ==> {
                &&& final(self).wf()
                &&& final(self).spec_base() == old(self).spec_base()
                &&& final(self).node_count() == old(self).node_count() + crate::scan::spec_parse_result(
                    crate::chars::spec_clean(
                        spec_fragment_text(
                            s@,
                            spec_insert_middle(*old(self), node_id, idx as int),
                        ),
                    ),
                )->Some_0.len() - 1
                &&& (exists|sp: int, mid: Seq<char>, ad: Seq<u64>, aq: Seq<int>|
                    {
                        &&& sp == spec_splice_point(*old(self), node_id, idx as int)
                        &&& mid == (if spec_append_comma(*old(self), node_id, idx as int) {
                            seq![','] + spec_frag_interior(s@, false)
                        } else {
                            spec_frag_interior(
                                s@,
                                spec_insert_middle(*old(self), node_id, idx as int),
                            )
                        })
                        &&& #[trigger] spec_adoptees_from_fragment(
                            *final(self),
                            s@,
                            spec_insert_middle(*old(self), node_id, idx as int),
                            spec_append_comma(*old(self), node_id, idx as int),
                            sp,
                            ad,
                            aq,
                        )
                        &&& #[trigger] Hson::spec_insert_effect(
                            *old(self),
                            *final(self),
                            node_id,
                            idx as int,
                            mid,
                            sp,
                            ad,
                        )
                    })
            },
    {
        self.insert_fragment(node_id, idx, s)
    }

    fn remove(&mut self, node_id: u64) -> (r: Result<(), HsonError>)
        ensures
            r is Ok <==> old(self).has_id(node_id),
            r is Err ==> *final(self) == *old(self) && r == Err::<(), HsonError>(
                HsonError::UnknownIdentifier(node_id),
            ),
            r is Ok ==> {
                &&& final(self).wf()
                &&& final(self).spec_base() == old(self).spec_base()
                &&& final(self).spec_id_count() == old(self).spec_id_count()
                &&& final(self).node_count() < old(self).node_count()
                &&& !final(self).has_id(node_id)
                &&& (forall|id: u64| final(self).has_id(id) ==> old(self).has_id(id))
                &&& (forall|id: u64|
                    old(self).has_id(id) && id != node_id && !old(self).spec_descendants(
                        old(self).pos_of(node_id),
                    ).contains(id) ==> final(self).has_id(id))
                &&& ({
                    let span = old(self).spec_cut_span(old(self).pos_of(node_id));
                    &&& 0 <= span.0 <= span.1 <= old(self).buffer().len()
                    &&& final(self).buffer() == old(self).buffer().subrange(0, span.0) + old(
                        self,
                    ).buffer().subrange(span.1, old(self).buffer().len() as int)
                })
                &&& Hson::spec_remove_effect(*old(self), *final(self), node_id)
            },
    {
        self.remove_subtree(node_id)
    }
}


/// Moves one buffer coordinate across a cut of the span `[a, b)`.
pub fn cut_coord(c: usize, a: usize, b: usize) -> (r: usize)
    requires
        a <= b,
    ensures
        r == spec_cut_coord(c as int, a as int, b as int),
{
    if c >= b {
        c - (b - a)
    } else if c > a {
        a
    } else {
        c
    }
}

impl Hson {
    /// Removes the node carrying `node_id` and its whole sub-tree: cuts
    /// its text span (and one separating comma) out of the buffer, drops
    /// the marked nodes, shifts every kept offset and renumbers instances,
    /// and derives the key index afresh.
    #[verifier::rlimit(100)]
    pub(crate) fn remove_subtree(&mut self, node_id: u64) -> (r: Result<(), HsonError>)
        requires
            old(self).wf(),
            old(self).has_id(node_id) ==> !old(self).node_of(node_id).root,
        ensures
            r is Ok <==> old(self).has_id(node_id),
            r is Err ==> *final(self) == *old(self) && r == Err::<(), HsonError>(
                HsonError::UnknownIdentifier(node_id),
            ),
            r is Ok ==> {
                &&& final(self).wf()
                &&& final(self).spec_base() == old(self).spec_base()
                &&& final(self).spec_id_count() == old(self).spec_id_count()
                &&& final(self).node_count() < old(self).node_count()
                &&& !final(self).has_id(node_id)
                &&& (forall|id: u64| final(self).has_id(id) ==> old(self).has_id(id))
                &&& (forall|id: u64|
                    old(self).has_id(id) && id != node_id && !old(self).spec_descendants(
                        old(self).pos_of(node_id),
                    ).contains(id) ==> final(self).has_id(id))
                &&& ({
                    let span = old(self).spec_cut_span(old(self).pos_of(node_id));
                    &&& 0 <= span.0 <= span.1 <= old(self).buffer().len()
                    &&& final(self).buffer() == old(self).buffer().subrange(0, span.0) + old(
                        self,
                    ).buffer().subrange(span.1, old(self).buffer().len() as int)
                })
                &&& Hson::spec_remove_effect(*old(self), *final(self), node_id)
            },
    {
        proof {
            self.lemma_has_id_find(node_id);
        }
        let p = match self.nodes.position_of(node_id) {
            Some(p) => p,
            None => {
                proof {
                    if self.has_id(node_id) {
                        self.lemma_has_id_find(node_id);
                    }
                }
                return Err(HsonError::UnknownIdentifier(node_id));
            },
        };
        proof {
            self.lemma_pos_of_id(p as int);
            assert(self.wf_node_at(p as int));
            assert(p > 0);
        }
        let node = self.nodes.at(p);
        let delim = match node.kind {
            Kind::Node => true,
            Kind::Array => true,
            Kind::String => true,
            _ => false,
        };
        let k0 = node.key[0];
        let k1 = node.key[1];
        let v0 = node.value[0];
        let v1 = node.value[1];
        let parent_id = node.parent;
        let len = self.data.len();
        let mut a: usize = if k0 < k1 {
            if k0 > 0 {
                k0 - 1
            } else {
                0
            }
        } else if delim && v0 > 0 {
            v0 - 1
        } else {
            v0
        };
        let mut b: usize = if delim {
            if v1 < len {
                v1 + 1
            } else {
                len
            }
        } else {
            v1
        };
        if a > b {
            a = b;
        }
        if b < len && self.data[b] == ',' {
            b = b + 1;
        } else if a > 0 && self.data[a - 1] == ',' {
            a = a - 1;
        }
        let desc = self.collect_descendants(p);
        let marked = self.subtree_marks(p, &desc);
        let newdata = self.build_cut_buffer(a, b);
        proof {
            self.lemma_descendants_below(p as int);
            self.lemma_descendants_in_arena(p as int);
            self.lemma_descendants_closed(p as int);
            self.lemma_descendants_children(p as int);
        }
        let n = self.nodes.len();
        let mut newnodes_v: Vec<Node> = Vec::new();
        let mut newindexes: Vec<u64> = Vec::new();
        let ghost mut kept: Seq<int> = Seq::empty();
        let ghost ai = a as int;
        let ghost bi = b as int;
        let mut t: usize = 0;
        while t < n
            invariant
                self.wf(),
                *self == *old(self),
                n == self.node_count(),
                0 < p < n,
                self.nodes@[p as int].id == node_id,
                self.pos_of(node_id) == p,
                parent_id == self.nodes@[p as int].parent,
                desc@ == self.spec_descendants(p as int),
                marked@.len() == n,
                forall|x: int| 0 <= x < n ==> marked@[x] == self.spec_gone(p as int, x),
                0 <= ai <= bi <= self.buffer().len(),
                ai == a as int,
                bi == b as int,
                newdata@ == self.buffer().subrange(0, ai) + self.buffer().subrange(
                    bi,
                    self.buffer().len() as int,
                ),
                0 <= t <= n,
                kept.len() == newnodes_v@.len(),
                kept.len() == newindexes@.len(),
                kept.len() <= t,
                t > p ==> kept.len() < t,
                forall|j: int| 0 <= j < kept.len() ==> 0 <= #[trigger] kept[j] < t,
                forall|j1: int, j2: int| 0 <= j1 < j2 < kept.len() ==> kept[j1] < kept[j2],
                forall|j: int| 0 <= j < kept.len() ==> !self.spec_gone(p as int, #[trigger] kept[j]),
                forall|x: int| 0 <= x < t && !self.spec_gone(p as int, x) ==> kept.contains(x),
                forall|j: int|
                    0 <= j < kept.len() ==> {
                        let od = self.nodes@[#[trigger] kept[j]];
                        let nn = newnodes_v@[j];
                        &&& nn.id == od.id
                        &&& newindexes@[j] == od.id
                        &&& nn.root == od.root
                        &&& nn.kind == od.kind
                        &&& nn.parent == od.parent
                        &&& nn.opened == od.opened
                        &&& nn.key[0] == spec_cut_coord(od.key[0] as int, ai, bi)
                        &&& nn.key[1] == spec_cut_coord(od.key[1] as int, ai, bi)
                        &&& nn.value[0] == spec_cut_coord(od.value[0] as int, ai, bi)
                        &&& nn.value[1] == spec_cut_coord(od.value[1] as int, ai, bi)
                        &&& nn.instance == self.spec_base() + j + 1
                        &&& nn.childs@ == (if od.id == parent_id {
                            spec_without(od.childs@, node_id)
                        } else {
                            od.childs@
                        })
                    },
            decreases n - t,
        {
            if !marked[t] {
                let nd = self.nodes.at(t);
                let childs = if nd.id == parent_id {
                    remove_id_from(&nd.childs, node_id)
                } else {
                    crate::doc::clone_ids(&nd.childs)
                };
                let nk0 = cut_coord(nd.key[0], a, b);
                let nk1 = cut_coord(nd.key[1], a, b);
                let nv0 = cut_coord(nd.value[0], a, b);
                let nv1 = cut_coord(nd.value[1], a, b);
                proof {
                    assert(kept.len() < n);
                    assert(self.spec_instances() == self.spec_base() + n);
                }
                let newinst = self.base + (newnodes_v.len() as u64) + 1;
                newindexes.push(nd.id);
                newnodes_v.push(
                    Node {
                        root: nd.root,
                        kind: nd.kind,
                        parent: nd.parent,
                        childs,
                        key: [nk0, nk1],
                        value: [nv0, nv1],
                        id: nd.id,
                        opened: nd.opened,
                        instance: newinst,
                    },
                );
                proof {
                    let oldkept = kept;
                    kept = kept.push(t as int);
                    assert forall|x: int|
                        0 <= x < t + 1 && !self.spec_gone(p as int, x) implies kept.contains(
                        x) by {
                        if x < t {
                            assert(oldkept.contains(x));
                            let w = choose|w: int| 0 <= w < oldkept.len() && oldkept[w] == x;
                            assert(kept[w] == x);
                        } else {
                            assert(kept[kept.len() - 1] == x);
                        }
                    }
                }
            } else {
                proof {
                    assert forall|x: int|
                        0 <= x < t + 1 && !self.spec_gone(p as int, x) implies kept.contains(
                        x) by {}
                }
            }
            t = t + 1;
        }
        let ghost orig = *self;
        let newlen = newnodes_v.len();
        let mut next = Hson {
            data: newdata,
            nodes: NodeMap::from_vec(newnodes_v),
            indexes: newindexes,
            instances: self.base + (newlen as u64),
            base: self.base,
            id_count: self.id_count,
            cache: crate::cache::KeyCache::new(),
            iter_count: self.iter_count,
        };
        proof {
            lemma_remove_rebuild(orig, next, kept, p as int, node_id, parent_id, ai, bi);
        }
        next.rebuild_cache();
        proof {
            assert(next.buffer() == orig.buffer().subrange(0, ai) + orig.buffer().subrange(
                bi,
                orig.buffer().len() as int,
            ));
            assert(orig == *old(self));
            assert(orig.spec_cut_span(p as int) == (ai, bi));
            lemma_remove_effect(orig, next, kept, p as int, node_id, parent_id, ai, bi);
        }
        *self = next;
        Ok(())
    }

    /// Inserts a fragment's children under a node at a child position:
    /// parses the fragment aside, splices its text body (and a separating
    /// comma where one is needed) into the buffer, shifts every affected
    /// offset, grafts the fragment's nodes with fresh identifiers and
    /// instances, and derives the key index afresh. A failure of any kind
    /// leaves the document exactly as it stood.
    #[verifier::rlimit(100)]
    pub(crate) fn insert_fragment(&mut self, node_id: u64, idx: usize, s: &str) -> (r: Result<
        (),
        HsonError,
    >)
        requires
            old(self).can_insert(s@),
        ensures
            r is Err ==> *final(self) == *old(self),
            r == Err::<(), HsonError>(HsonError::UnknownIdentifier(node_id)) <==> !old(
                self,
            ).has_id(node_id),
            (old(self).has_id(node_id) && idx > 0 && idx > old(self).node_of(
                node_id,
            ).childs@.len()) <==> r == Err::<(), HsonError>(HsonError::BadPosition(idx)),
            r is Ok <==> (old(self).has_id(node_id) && !(idx > 0 && idx > old(self).node_of(
                node_id,
            ).childs@.len()) && spec_fragment_ok(
                s@,
                spec_insert_middle(*old(self), node_id, idx as int),
            )),
            r == Err::<(), HsonError>(HsonError::FragmentError) <==> (old(self).has_id(node_id)
                && !(idx > 0 && idx > old(self).node_of(node_id).childs@.len())
                && !spec_fragment_ok(
                s@,
                spec_insert_middle(*old(self), node_id, idx as int),
            )),
            r is Ok ==> {
                &&& final(self).wf()
                &&& final(self).spec_base() == old(self).spec_base()
                &&& final(self).node_count() == old(self).node_count() + crate::scan::spec_parse_result(
                    crate::chars::spec_clean(
                        spec_fragment_text(
                            s@,
                            spec_insert_middle(*old(self), node_id, idx as int),
                        ),
                    ),
                )->Some_0.len() - 1
                &&& (exists|sp: int, mid: Seq<char>, ad: Seq<u64>, aq: Seq<int>|
                    {
                        &&& sp == spec_splice_point(*old(self), node_id, idx as int)
                        &&& mid == (if spec_append_comma(*old(self), node_id, idx as int) {
                            seq![','] + spec_frag_interior(s@, false)
                        } else {
                            spec_frag_interior(
                                s@,
                                spec_insert_middle(*old(self), node_id, idx as int),
                            )
                        })
                        &&& #[trigger] spec_adoptees_from_fragment(
                            *final(self),
                            s@,
                            spec_insert_middle(*old(self), node_id, idx as int),
                            spec_append_comma(*old(self), node_id, idx as int),
                            sp,
                            ad,
                            aq,
                        )
                        &&& #[trigger] Hson::spec_insert_effect(
                            *old(self),
                            *final(self),
                            node_id,
                            idx as int,
                            mid,
                            sp,
                            ad,
                        )
                    })
            },
    {
        proof {
            self.lemma_has_id_find(node_id);
        }
        let p = match self.nodes.position_of(node_id) {
            Some(p) => p,
            None => {
                proof {
                    if self.has_id(node_id) {
                        self.lemma_has_id_find(node_id);
                    }
                }
                return Err(HsonError::UnknownIdentifier(node_id));
            },
        };
        proof {
            self.lemma_pos_of_id(p as int);
            assert(self.wf_node_at(p as int));
        }
        let pnode = self.nodes.at(p);
        let clen = pnode.childs.len();
        if idx > 0 && idx > clen {
            return Err(HsonError::BadPosition(idx));
        }
        let len = self.data.len();
        // the splice point, the anchor the graft follows, and whether a
        // separating comma is appended to the fragment or put before it
        let mut anchor: usize = p;
        let mut splice: usize = pnode.value[0];
        let mut middle: bool = false;
        let mut append_comma: bool = false;
        if clen > 0 && idx == 0 {
            middle = true;
        } else if idx > 0 {
            let cid = pnode.childs[idx - 1];
            proof {
                assert(self.childs_ok(p as int));
                self.lemma_has_id_find(cid);
            }
            let cpos = match self.nodes.position_of(cid) {
                Some(q) => q,
                None => {
                    proof {
                        assert(false);
                    }
                    return Err(HsonError::UnknownIdentifier(cid));
                },
            };
            proof {
                assert(self.wf_node_at(cpos as int));
            }
            // the graft slots in after the last node of that child's
            // sub-tree in instance order
            anchor = cpos;
            let sub = self.collect_descendants(cpos);
            proof {
                self.lemma_descendants_in_arena(cpos as int);
                self.lemma_descendants_below(cpos as int);
            }
            proof {
                assert(self.childs_ok(p as int));
                assert(self.pos_of(self.nodes@[p as int].childs@[idx - 1]) > p);
            }
            let mut w: usize = 0;
            while w < sub.len()
                invariant
                    self.wf(),
                    sub@ == self.spec_descendants(self.pos_of(cid)),
                    forall|x: int| 0 <= x < sub@.len() ==> self.has_id(#[trigger] sub@[x]),
                    0 <= w <= sub@.len(),
                    p < anchor < self.node_count(),
                decreases sub@.len() - w,
            {
                let did = sub[w];
                proof {
                    self.lemma_has_id_find(did);
                }
                match self.nodes.position_of(did) {
                    Some(q) => {
                        if q > anchor {
                            anchor = q;
                        }
                    },
                    None => {
                        proof {
                            assert(false);
                        }
                        return Err(HsonError::UnknownIdentifier(did));
                    },
                }
                w = w + 1;
            }
            let cnode = self.nodes.at(cpos);
            let cdelim = match cnode.kind {
                Kind::Node => true,
                Kind::Array => true,
                Kind::String => true,
                _ => false,
            };
            let endpos = if cdelim {
                if cnode.value[1] < len {
                    cnode.value[1] + 1
                } else {
                    len
                }
            } else {
                cnode.value[1]
            };
            if idx < clen {
                // a comma already follows the prior sibling: splice after it
                splice = if endpos < len {
                    endpos + 1
                } else {
                    len
                };
                middle = true;
            } else {
                // appending: a comma must be put before the body
                splice = endpos;
                append_comma = true;
            }
        }
        if splice > len {
            splice = len;
        }
        proof {
            assert(self.pos_of(node_id) == p);
            assert(splice as int == spec_splice_point(*self, node_id, idx as int));
            assert(append_comma == spec_append_comma(*self, node_id, idx as int));
        }
        // the fragment, cleaned and self-terminated where needed
        let raw = crate::chars::str_to_chars(s);
        let mut frag_text = crate::chars::clean(raw.as_slice());
        proof {
            crate::chars::lemma_clean_len(s@, 0, false, ' ');
        }
        proof {
            assert(middle == (idx < clen));
            assert(old(self).node_of(node_id) == self.nodes@[p as int]);
            assert(spec_insert_middle(*old(self), node_id, idx as int) == middle);
        }
        let ghost cl0 = frag_text@;
        if middle && frag_text.len() >= 2 && frag_text[frag_text.len() - 2] != ',' {
            let at = frag_text.len() - 1;
            frag_text.insert(at, ',');
            proof {
                assert(frag_text@ =~= cl0.subrange(0, cl0.len() - 1) + seq![','] + seq![
                    cl0.last()
                ]);
            }
        }
        proof {
            assert(frag_text@ == spec_fragment_text(s@, middle));
        }
        let fs = crate::chars::chars_to_string(frag_text.as_slice());
        let start_instance = self.base + (anchor as u64);
        proof {
            assert(self.spec_instances() == self.spec_base() + self.node_count());
        }
        let mut frag = Hson::new_slice(self.id_count + 1, start_instance);
        match frag.parse(fs.as_str()) {
            Ok(_) => {},
            Err(_) => {
                proof {
                    assert(!crate::scan::spec_accepts(crate::chars::spec_clean(fs@)));
                    assert(!spec_fragment_ok(s@, middle));
                }
                return Err(HsonError::FragmentError);
            },
        }
        proof {
            assert(crate::scan::spec_accepts(crate::chars::spec_clean(fs@)));
            assert(crate::scan::scan_matches(
                frag.nodes@,
                crate::scan::spec_parse_result(crate::chars::spec_clean(fs@))->Some_0,
                (self.id_count + 1) as u64,
                frag.spec_base(),
            ));
        }
        let fragcount = frag.nodes.len();
        if fragcount == 0 {
            proof {
                assert(crate::scan::spec_parse_result(
                    crate::chars::spec_clean(fs@),
                )->Some_0.len() == 0);
                assert(!spec_fragment_ok(s@, middle));
            }
            return Err(HsonError::FragmentError);
        }
        let fraglen = frag.data.len();
        if fraglen < 2 {
            proof {
                assert(frag.buffer().len() == crate::chars::spec_clean(fs@).len());
                assert(!spec_fragment_ok(s@, middle));
            }
            return Err(HsonError::FragmentError);
        }
        proof {
            assert(spec_fragment_ok(s@, middle));
        }
        proof {
            assert(frag.wf());
            assert(frag.wf_node_at(0));
        }
        let k = fragcount - 1;
        let frag_root_id = frag.nodes.at(0).id;
        let body = frag.copy_range(1, fraglen - 1);
        let commaoff: usize = if append_comma {
            1
        } else {
            0
        };
        let tl = body.len() + commaoff;
        proof {
            crate::chars::lemma_clean_len(fs@, 0, false, ' ');
            assert(self.buffer().len() + tl <= usize::MAX);
        }
        let newlen = len + tl;
        // the new buffer: prefix, optional comma, body, suffix
        let mut newdata = self.copy_range(0, splice);
        if append_comma {
            newdata.push(',');
        }
        let mut bi: usize = 0;
        while bi < body.len()
            invariant
                0 <= bi <= body@.len(),
                newdata@ == self.buffer().subrange(0, splice as int) + (if append_comma {
                    seq![',']
                } else {
                    Seq::<char>::empty()
                }) + body@.subrange(0, bi as int),
            decreases body@.len() - bi,
        {
            newdata.push(body[bi]);
            proof {
                assert(newdata@ =~= self.buffer().subrange(0, splice as int) + (if append_comma {
                    seq![',']
                } else {
                    Seq::<char>::empty()
                }) + body@.subrange(0, bi + 1 as int));
            }
            bi = bi + 1;
        }
        let mut si: usize = splice;
        proof {
            assert(body@.subrange(0, body@.len() as int) =~= body@);
        }
        while si < len
            invariant
                splice <= si <= len,
                len == self.buffer().len(),
                splice <= len,
                newdata@ == self.buffer().subrange(0, splice as int) + (if append_comma {
                    seq![',']
                } else {
                    Seq::<char>::empty()
                }) + body@ + self.buffer().subrange(splice as int, si as int),
            decreases len - si,
        {
            newdata.push(self.data[si]);
            proof {
                assert(newdata@ =~= self.buffer().subrange(0, splice as int) + (if append_comma {
                    seq![',']
                } else {
                    Seq::<char>::empty()
                }) + body@ + self.buffer().subrange(splice as int, si + 1 as int));
            }
            si = si + 1;
        }
        let ghost midseq: Seq<char> = (if append_comma {
            seq![',']
        } else {
            Seq::<char>::empty()
        }) + body@;
        proof {
            assert(newdata@.len() == newlen);
        }
        // the adoptees: fragment nodes whose parent is the fragment root
        let mut adoptees: Vec<u64> = Vec::new();
        let ghost mut apos: Seq<int> = Seq::empty();
        let mut q: usize = 1;
        while q < fragcount
            invariant
                frag.wf(),
                fragcount == frag.node_count(),
                frag_root_id == frag.nodes@[0].id,
                1 <= q <= fragcount,
                adoptees@.len() <= q - 1,
                apos.len() == adoptees@.len(),
                forall|x: int|
                    0 <= x < apos.len() ==> 1 <= #[trigger] apos[x] < q && frag.nodes@[
                        apos[x]
                    ].id == adoptees@[x] && frag.nodes@[apos[x]].parent == frag_root_id,
                forall|x: int, y: int| 0 <= x < y < apos.len() ==> apos[x] < apos[y],
                forall|qq: int|
                    1 <= qq < q && frag.nodes@[qq].parent == frag_root_id ==> adoptees@.contains(
                        #[trigger] frag.nodes@[qq].id,
                    ),
                forall|x: int, y: int|
                    0 <= x < y < adoptees@.len() ==> adoptees@[x] != adoptees@[y],
                forall|x: int|
                    0 <= x < adoptees@.len() ==> frag.nodes@[0].childs@.contains(
                        #[trigger] adoptees@[x],
                    ),
            decreases fragcount - q,
        {
            let fnode = frag.nodes.at(q);
            let ghost olda = adoptees@;
            if fnode.parent == frag_root_id {
                proof {
                    assert(frag.wf_node_at(q as int));
                    assert(frag.parent_ok(q as int));
                    frag.lemma_pos_of_id(0);
                    crate::nodemap::lemma_find_id(frag.nodes@, frag.nodes@[q as int].parent, 0);
                    assert(frag.pos_of(frag_root_id) == 0);
                    assert(frag.nodes@[0].childs@.contains(frag.nodes@[q as int].id));
                    assert forall|x: int|
                        0 <= x < adoptees@.len() implies adoptees@[x] != frag.nodes@[
                        q as int].id by {
                        assert(frag.nodes@[apos[x]].id == adoptees@[x]);
                    }
                }
                adoptees.push(fnode.id);
                proof {
                    apos = apos.push(q as int);
                }
            }
            proof {
                assert forall|qq: int|
                    1 <= qq < q + 1 && frag.nodes@[qq].parent == frag_root_id implies
                    adoptees@.contains(#[trigger] frag.nodes@[qq].id) by {
                    if qq < q {
                        assert(olda.contains(frag.nodes@[qq].id));
                        let w = choose|w: int|
                            0 <= w < olda.len() && olda[w] == frag.nodes@[qq].id;
                        assert(adoptees@[w] == frag.nodes@[qq].id);
                    } else {
                        assert(adoptees@[adoptees@.len() - 1] == frag.nodes@[qq].id);
                    }
                }
            }
            q = q + 1;
        }
        // splice the adoptees into the target's child list
        let pchilds = &self.nodes.at(p).childs;
        let mut newpchilds = crate::doc::clone_ids_prefix(pchilds, idx);
        let mut x: usize = 0;
        while x < adoptees.len()
            invariant
                0 <= x <= adoptees@.len(),
                idx <= pchilds@.len(),
                pchilds@ == self.nodes@[p as int].childs@,
                newpchilds@ == self.nodes@[p as int].childs@.subrange(0, idx as int)
                    + adoptees@.subrange(0, x as int),
            decreases adoptees@.len() - x,
        {
            newpchilds.push(adoptees[x]);
            proof {
                assert(newpchilds@ =~= self.nodes@[p as int].childs@.subrange(0, idx as int)
                    + adoptees@.subrange(0, x + 1 as int));
            }
            x = x + 1;
        }
        let mut x2: usize = idx;
        proof {
            assert(adoptees@.subrange(0, adoptees@.len() as int) =~= adoptees@);
        }
        while x2 < pchilds.len()
            invariant
                idx <= x2 <= pchilds@.len(),
                pchilds@ == self.nodes@[p as int].childs@,
                newpchilds@ == self.nodes@[p as int].childs@.subrange(0, idx as int) + adoptees@
                    + self.nodes@[p as int].childs@.subrange(idx as int, x2 as int),
            decreases pchilds@.len() - x2,
        {
            newpchilds.push(pchilds[x2]);
            proof {
                assert(newpchilds@ =~= self.nodes@[p as int].childs@.subrange(0, idx as int)
                    + adoptees@ + self.nodes@[p as int].childs@.subrange(
                    idx as int,
                    x2 + 1 as int,
                ));
            }
            x2 = x2 + 1;
        }
        proof {
            assert(newpchilds@ == self.nodes@[p as int].childs@.subrange(0, idx as int)
                + adoptees@ + self.nodes@[p as int].childs@.subrange(
                idx as int,
                self.nodes@[p as int].childs@.len() as int,
            ));
        }
        // build the new arena: the nodes up to the anchor, then the
        // fragment's non-root nodes, then the rest, all with shifted
        // offsets and renumbered instances
        proof {
            assert(fragcount <= fraglen);
            assert(frag.buffer().len() <= fs@.len());
            assert(fs@.len() <= crate::chars::spec_clean(s@).len() + 1);
            assert(crate::chars::spec_clean(s@).len() <= s@.len());
            assert(self.spec_instances() == self.spec_base() + self.node_count());
            assert(self.spec_base() + self.node_count() + k + 2 <= u64::MAX);
            assert(frag.buffer().len() + self.buffer().len() + 2 <= usize::MAX);
        }
        let n = self.nodes.len();
        let mut newnodes_v: Vec<Node> = Vec::new();
        let mut newindexes: Vec<u64> = Vec::new();
        let ghost spi = splice as int;
        let ghost tli = tl as int;
        let mut t: usize = 0;
        while t <= anchor
            invariant
                self.wf(),
                n == self.node_count(),
                p <= anchor < n,
                0 <= spi <= self.buffer().len(),
                spi == splice as int,
                tli == tl as int,
                newpchilds@ == self.nodes@[p as int].childs@.subrange(0, idx as int) + adoptees@
                    + self.nodes@[p as int].childs@.subrange(
                    idx as int,
                    self.nodes@[p as int].childs@.len() as int,
                ),
                0 <= t <= anchor + 1,
                newnodes_v@.len() == t,
                newindexes@.len() == t,
                self.spec_instances() == self.spec_base() + n,
                self.buffer().len() + tl <= usize::MAX,
                self.spec_base() + n + k + 2 <= u64::MAX,
                k == fragcount - 1,
                forall|j: int|
                    0 <= j < t ==> spec_host_adjusted(
                        *self,
                        newnodes_v@,
                        newindexes@,
                        j,
                        0,
                        p as int,
                        newpchilds@,
                        spi,
                        tli,
                    ),
            decreases anchor + 1 - t,
        {
            proof {
                assert(self.wf_node_at(t as int));
            }
            let nd = self.nodes.at(t);
            let childs = if t == p {
                crate::doc::clone_ids(&newpchilds)
            } else {
                crate::doc::clone_ids(&nd.childs)
            };
            let ghost prevn = newnodes_v@;
            let ghost previ = newindexes@;
            let adj = adjust_host_node(nd, childs, t == p, splice, tl, self.base, newnodes_v.len());
            newindexes.push(nd.id);
            newnodes_v.push(adj);
            proof {
                assert forall|j: int|
                    0 <= j < t + 1 implies spec_host_adjusted(
                    *self,
                    newnodes_v@,
                    newindexes@,
                    j,
                    0,
                    p as int,
                    newpchilds@,
                    spi,
                    tli,
                ) by {
                    if j < t {
                        assert(spec_host_adjusted(
                            *self,
                            prevn,
                            previ,
                            j,
                            0,
                            p as int,
                            newpchilds@,
                            spi,
                            tli,
                        ));
                        assert(newnodes_v@[j] == prevn[j]);
                        assert(newindexes@[j] == previ[j]);
                    } else {
                        assert(newnodes_v@[j] == adj);
                    }
                }
            }
            t = t + 1;
        }
        let mut q2: usize = 1;
        while q2 < fragcount
            invariant
                self.wf(),
                frag.wf(),
                n == self.node_count(),
                fragcount == frag.node_count(),
                p <= anchor < n,
                1 <= q2 <= fragcount,
                0 <= spi <= self.buffer().len(),
                spi == splice as int,
                tli == tl as int,
                commaoff <= 1,
                newlen == self.buffer().len() + tl,
                frag_root_id == frag.nodes@[0].id,
                fraglen == frag.buffer().len(),
                frag.buffer().len() + self.buffer().len() + 2 <= usize::MAX,
                newpchilds@ == self.nodes@[p as int].childs@.subrange(0, idx as int) + adoptees@
                    + self.nodes@[p as int].childs@.subrange(
                    idx as int,
                    self.nodes@[p as int].childs@.len() as int,
                ),
                newnodes_v@.len() == anchor + q2,
                newindexes@.len() == anchor + q2,
                self.spec_instances() == self.spec_base() + n,
                self.buffer().len() + tl <= usize::MAX,
                self.spec_base() + n + k + 2 <= u64::MAX,
                k == fragcount - 1,
                forall|j: int|
                    0 <= j < anchor + 1 ==> spec_host_adjusted(
                        *self,
                        newnodes_v@,
                        newindexes@,
                        j,
                        0,
                        p as int,
                        newpchilds@,
                        spi,
                        tli,
                    ),
                forall|j: int|
                    anchor + 1 <= j < anchor + q2 ==> spec_frag_adjusted(
                        frag,
                        newnodes_v@,
                        newindexes@,
                        j,
                        anchor as int,
                        frag_root_id,
                        node_id,
                        spi,
                        commaoff as int,
                        newlen as int,
                        self.spec_base(),
                    ),
            decreases fragcount - q2,
        {
            proof {
                assert(frag.wf_node_at(q2 as int));
            }
            let fq = frag.nodes.at(q2);
            let adopt = fq.parent == frag_root_id;
            let childs = crate::doc::clone_ids(&fq.childs);
            let ghost prevn = newnodes_v@;
            let ghost previ = newindexes@;
            let adj = adjust_frag_node(
                fq,
                childs,
                adopt,
                node_id,
                splice,
                commaoff,
                newlen,
                self.base,
                newnodes_v.len(),
            );
            newindexes.push(fq.id);
            newnodes_v.push(adj);
            proof {
                assert forall|j: int|
                    0 <= j < anchor + 1 implies spec_host_adjusted(
                    *self,
                    newnodes_v@,
                    newindexes@,
                    j,
                    0,
                    p as int,
                    newpchilds@,
                    spi,
                    tli,
                ) by {
                    assert(spec_host_adjusted(
                        *self,
                        prevn,
                        previ,
                        j,
                        0,
                        p as int,
                        newpchilds@,
                        spi,
                        tli,
                    ));
                    assert(newnodes_v@[j] == prevn[j]);
                    assert(newindexes@[j] == previ[j]);
                }
                assert forall|j: int|
                    anchor + 1 <= j < anchor + q2 + 1 implies spec_frag_adjusted(
                    frag,
                    newnodes_v@,
                    newindexes@,
                    j,
                    anchor as int,
                    frag_root_id,
                    node_id,
                    spi,
                    commaoff as int,
                    newlen as int,
                    self.spec_base(),
                ) by {
                    if j < anchor + q2 {
                        assert(spec_frag_adjusted(
                            frag,
                            prevn,
                            previ,
                            j,
                            anchor as int,
                            frag_root_id,
                            node_id,
                            spi,
                            commaoff as int,
                            newlen as int,
                            self.spec_base(),
                        ));
                        assert(newnodes_v@[j] == prevn[j]);
                        assert(newindexes@[j] == previ[j]);
                    } else {
                        assert(newnodes_v@[j] == adj);
                    }
                }
            }
            q2 = q2 + 1;
        }
        let mut t2: usize = anchor + 1;
        while t2 < n
            invariant
                self.wf(),
                n == self.node_count(),
                p <= anchor < n,
                anchor + 1 <= t2 <= n,
                0 <= spi <= self.buffer().len(),
                spi == splice as int,
                tli == tl as int,
                newpchilds@ == self.nodes@[p as int].childs@.subrange(0, idx as int) + adoptees@
                    + self.nodes@[p as int].childs@.subrange(
                    idx as int,
                    self.nodes@[p as int].childs@.len() as int,
                ),
                newnodes_v@.len() == t2 + k,
                newindexes@.len() == t2 + k,
                self.spec_instances() == self.spec_base() + n,
                self.buffer().len() + tl <= usize::MAX,
                self.spec_base() + n + k + 2 <= u64::MAX,
                forall|j: int|
                    0 <= j < anchor + 1 ==> spec_host_adjusted(
                        *self,
                        newnodes_v@,
                        newindexes@,
                        j,
                        0,
                        p as int,
                        newpchilds@,
                        spi,
                        tli,
                    ),
                forall|j: int|
                    anchor + 1 <= j < anchor + 1 + k ==> spec_frag_adjusted(
                        frag,
                        newnodes_v@,
                        newindexes@,
                        j,
                        anchor as int,
                        frag_root_id,
                        node_id,
                        spi,
                        commaoff as int,
                        newlen as int,
                        self.spec_base(),
                    ),
                forall|j: int|
                    anchor + 1 + k <= j < t2 + k ==> spec_host_adjusted(
                        *self,
                        newnodes_v@,
                        newindexes@,
                        j,
                        k as int,
                        p as int,
                        newpchilds@,
                        spi,
                        tli,
                    ),
                fragcount == frag.node_count(),
                frag.wf(),
                frag_root_id == frag.nodes@[0].id,
                k == fragcount - 1,
            decreases n - t2,
        {
            proof {
                assert(self.wf_node_at(t2 as int));
            }
            let nd = self.nodes.at(t2);
            let childs = crate::doc::clone_ids(&nd.childs);
            let ghost prevn = newnodes_v@;
            let ghost previ = newindexes@;
            let adj = adjust_host_node(nd, childs, false, splice, tl, self.base, newnodes_v.len());
            newindexes.push(nd.id);
            newnodes_v.push(adj);
            proof {
                assert forall|j: int|
                    0 <= j < anchor + 1 implies spec_host_adjusted(
                    *self,
                    newnodes_v@,
                    newindexes@,
                    j,
                    0,
                    p as int,
                    newpchilds@,
                    spi,
                    tli,
                ) by {
                    assert(spec_host_adjusted(
                        *self,
                        prevn,
                        previ,
                        j,
                        0,
                        p as int,
                        newpchilds@,
                        spi,
                        tli,
                    ));
                    assert(newnodes_v@[j] == prevn[j]);
                    assert(newindexes@[j] == previ[j]);
                }
                assert forall|j: int|
                    anchor + 1 <= j < anchor + 1 + k implies spec_frag_adjusted(
                    frag,
                    newnodes_v@,
                    newindexes@,
                    j,
                    anchor as int,
                    frag_root_id,
                    node_id,
                    spi,
                    commaoff as int,
                    newlen as int,
                    self.spec_base(),
                ) by {
                    assert(spec_frag_adjusted(
                        frag,
                        prevn,
                        previ,
                        j,
                        anchor as int,
                        frag_root_id,
                        node_id,
                        spi,
                        commaoff as int,
                        newlen as int,
                        self.spec_base(),
                    ));
                    assert(newnodes_v@[j] == prevn[j]);
                    assert(newindexes@[j] == previ[j]);
                }
                assert forall|j: int|
                    anchor + 1 + k <= j < t2 + 1 + k implies spec_host_adjusted(
                    *self,
                    newnodes_v@,
                    newindexes@,
                    j,
                    k as int,
                    p as int,
                    newpchilds@,
                    spi,
                    tli,
                ) by {
                    if j < t2 + k {
                        assert(spec_host_adjusted(
                            *self,
                            prevn,
                            previ,
                            j,
                            k as int,
                            p as int,
                            newpchilds@,
                            spi,
                            tli,
                        ));
                        assert(newnodes_v@[j] == prevn[j]);
                        assert(newindexes@[j] == previ[j]);
                    } else {
                        assert(newnodes_v@[j] == adj);
                    }
                }
            }
            t2 = t2 + 1;
        }
        // commit
        let ghost orig = *self;
        let new_id_count = frag.id_count;
        let total = newnodes_v.len();
        let mut next = Hson {
            data: newdata,
            nodes: NodeMap::from_vec(newnodes_v),
            indexes: newindexes,
            instances: self.base + (total as u64),
            base: self.base,
            id_count: new_id_count,
            cache: crate::cache::KeyCache::new(),
            iter_count: self.iter_count,
        };
        proof {
            lemma_insert_rebuild(
                orig,
                frag,
                next,
                p as int,
                anchor as int,
                node_id,
                frag_root_id,
                idx as int,
                adoptees@,
                apos,
                newpchilds@,
                spi,
                tli,
                commaoff as int,
                newlen as int,
                k as int,
            );
        }
        next.rebuild_cache();
        proof {
            assert(next.buffer() == orig.buffer().subrange(0, spi) + midseq
                + orig.buffer().subrange(spi, orig.buffer().len() as int));
            assert(fs@ == spec_fragment_text(s@, middle));
            assert(frag.buffer() == crate::chars::spec_clean(fs@));
            assert(body@ == spec_frag_interior(s@, middle)) by {
                assert(body@ =~= frag.buffer().subrange(1, fraglen - 1));
                assert(crate::chars::spec_clean(spec_fragment_text(s@, middle)).len()
                    == fraglen);
            }
            if append_comma {
                assert(!middle);
                assert(midseq =~= seq![','] + spec_frag_interior(s@, false));
            } else {
                assert(midseq =~= spec_frag_interior(s@, middle));
            }
            assert(midseq.len() == tli);
            assert(orig == *old(self));
            lemma_insert_effect(
                orig,
                frag,
                next,
                p as int,
                anchor as int,
                node_id,
                frag_root_id,
                idx as int,
                adoptees@,
                apos,
                newpchilds@,
                spi,
                midseq,
                commaoff as int,
                newlen as int,
                k as int,
            );
            assert(Hson::spec_insert_effect(
                orig,
                next,
                node_id,
                idx as int,
                midseq,
                spi,
                adoptees@,
            ));
            lemma_graft_from_fragment(
                frag,
                next,
                crate::scan::spec_parse_result(
                    crate::chars::spec_clean(spec_fragment_text(s@, middle)),
                )->Some_0,
                (orig.spec_id_count() + 1) as u64,
                anchor as int,
                frag_root_id,
                node_id,
                adoptees@,
                apos,
                spi,
                commaoff as int,
                newlen as int,
                k as int,
                s@,
                middle,
                append_comma,
                orig.spec_base(),
            );
            assert(spec_adoptees_from_fragment(
                next,
                s@,
                middle,
                append_comma,
                spi,
                adoptees@,
                apos,
            ));
        }
        *self = next;
        Ok(())
    }
}

/// The adjusted form of a kept host node after a splice of `tl` characters
/// at `sp`: offsets at or past the splice move right (the enclosing
/// target's value keeps its start), the target's child list is the spliced
/// one, and the instance is the new position's.
pub open spec fn spec_host_adjusted(
    orig: Hson,
    nn: Seq<Node>,
    ni: Seq<u64>,
    j: int,
    shift: int,
    p: int,
    newpchilds: Seq<u64>,
    sp: int,
    tl: int,
) -> bool {
    let t = j - shift;
    let od = orig.nodes@[t];
    let m = nn[j];
    &&& m.id == od.id
    &&& ni[j] == od.id
    &&& m.root == od.root
    &&& m.kind == od.kind
    &&& m.parent == od.parent
    &&& m.opened == od.opened
    &&& m.instance == orig.spec_base() + j + 1
    &&& m.childs@ == (if t == p {
        newpchilds
    } else {
        od.childs@
    })
    &&& m.key[0] == spec_ins_k0(od.key[0] as int, sp, tl)
    &&& m.key[1] == spec_ins_k1(od.key[0] as int, od.key[1] as int, sp, tl)
    &&& m.value[0] == spec_ins_v0(od.value[0] as int, sp, tl, t == p)
    &&& m.value[1] == spec_ins_v1(
        od.value[0] as int,
        od.value[1] as int,
        sp,
        tl,
        t == p,
        od.kind == Kind::Node || od.kind == Kind::Array || od.kind == Kind::String,
    )
}

/// The adjusted form of a grafted fragment node: offsets move to sit after
/// the splice point (less the fragment root's opening bracket), an adoptee
/// points at the target, and the instance is the new position's.
pub open spec fn spec_frag_adjusted(
    frag: Hson,
    nn: Seq<Node>,
    ni: Seq<u64>,
    j: int,
    anchor: int,
    frag_root_id: u64,
    node_id: u64,
    sp: int,
    commaoff: int,
    newlen: int,
    base: u64,
) -> bool {
    let q = j - anchor;
    let od = frag.nodes@[q];
    let m = nn[j];
    &&& m.id == od.id
    &&& ni[j] == od.id
    &&& m.root == od.root
    &&& m.kind == od.kind
    &&& m.parent == (if od.parent == frag_root_id {
        node_id
    } else {
        od.parent
    })
    &&& m.opened == od.opened
    &&& m.instance == base + j + 1
    &&& m.childs@ == od.childs@
    &&& m.key[0] == spec_frag_coord(od.key[0] as int, sp, commaoff, newlen)
    &&& m.key[1] == spec_frag_coord(od.key[1] as int, sp, commaoff, newlen)
    &&& m.value[0] == spec_frag_coord(od.value[0] as int, sp, commaoff, newlen)
    &&& m.value[1] == spec_frag_coord(od.value[1] as int, sp, commaoff, newlen)
}

/// A key start moves when it sits at or past the splice point.
pub open spec fn spec_ins_k0(c: int, sp: int, tl: int) -> int {
    if c >= sp {
        c + tl
    } else {
        c
    }
}

/// A key end moves with its start, or when it sits strictly past the
/// splice point.
pub open spec fn spec_ins_k1(c0: int, c1: int, sp: int, tl: int) -> int {
    if c1 > sp || (c1 == sp && c0 >= sp) {
        c1 + tl
    } else {
        c1
    }
}

/// A value start moves when it sits at or past the splice point, except on
/// the target itself, whose value encloses the splice.
pub open spec fn spec_ins_v0(c: int, sp: int, tl: int, is_target: bool) -> int {
    if c >= sp && !is_target {
        c + tl
    } else {
        c
    }
}

/// A value end moves when it sits strictly past the splice point; at the
/// splice point it moves for a delimited node (its closing bracket stands
/// there) or when its start moved.
pub open spec fn spec_ins_v1(c0: int, c1: int, sp: int, tl: int, is_target: bool, delim: bool) -> int {
    let v0_moved = c0 >= sp && !is_target;
    if c1 > sp || (c1 == sp && (delim || v0_moved)) {
        c1 + tl
    } else {
        c1
    }
}

/// A fragment coordinate lands after the splice point (and the separating
/// comma, where one is put first), less the fragment root's opening
/// bracket, clamped into the new buffer.
pub open spec fn spec_frag_coord(c: int, sp: int, commaoff: int, newlen: int) -> int {
    let tmp = sp + commaoff + c;
    let v = if tmp > 0 {
        tmp - 1
    } else {
        0
    };
    if v > newlen {
        newlen
    } else {
        v
    }
}

/// Builds the adjusted form of a kept host node.
fn adjust_host_node(
    nd: &Node,
    childs: Vec<u64>,
    is_target: bool,
    splice: usize,
    tl: usize,
    base: u64,
    newpos: usize,
) -> (r: Node)
    requires
        nd.key[0] <= nd.key[1],
        nd.value[0] <= nd.value[1],
        nd.key[1] + tl <= usize::MAX,
        nd.value[1] + tl <= usize::MAX,
        base + newpos + 1 <= u64::MAX,
    ensures
        r.id == nd.id,
        r.root == nd.root,
        r.kind == nd.kind,
        r.parent == nd.parent,
        r.opened == nd.opened,
        r.childs == childs,
        r.instance == base + newpos + 1,
        r.key[0] == spec_ins_k0(nd.key[0] as int, splice as int, tl as int),
        r.key[1] == spec_ins_k1(nd.key[0] as int, nd.key[1] as int, splice as int, tl as int),
        r.value[0] == spec_ins_v0(nd.value[0] as int, splice as int, tl as int, is_target),
        r.value[1] == spec_ins_v1(
            nd.value[0] as int,
            nd.value[1] as int,
            splice as int,
            tl as int,
            is_target,
            nd.kind == Kind::Node || nd.kind == Kind::Array || nd.kind == Kind::String,
        ),
{
    let delim = match nd.kind {
        Kind::Node => true,
        Kind::Array => true,
        Kind::String => true,
        _ => false,
    };
    let shift_k0 = nd.key[0] >= splice;
    let nk0 = if shift_k0 {
        nd.key[0] + tl
    } else {
        nd.key[0]
    };
    let nk1 = if nd.key[1] > splice || (nd.key[1] == splice && shift_k0) {
        nd.key[1] + tl
    } else {
        nd.key[1]
    };
    let shift_v0 = nd.value[0] >= splice && !is_target;
    let nv0 = if shift_v0 {
        nd.value[0] + tl
    } else {
        nd.value[0]
    };
    let nv1 = if nd.value[1] > splice || (nd.value[1] == splice && (delim || shift_v0)) {
        nd.value[1] + tl
    } else {
        nd.value[1]
    };
    Node {
        root: nd.root,
        kind: nd.kind,
        parent: nd.parent,
        childs,
        key: [nk0, nk1],
        value: [nv0, nv1],
        id: nd.id,
        opened: nd.opened,
        instance: base + (newpos as u64) + 1,
    }
}

/// Builds the adjusted form of a grafted fragment node.
fn adjust_frag_node(
    nd: &Node,
    childs: Vec<u64>,
    adopt: bool,
    node_id: u64,
    splice: usize,
    commaoff: usize,
    newlen: usize,
    base: u64,
    newpos: usize,
) -> (r: Node)
    requires
        childs@ == nd.childs@,
        splice + commaoff + nd.key[1] <= usize::MAX,
        splice + commaoff + nd.value[1] <= usize::MAX,
        nd.key[0] <= nd.key[1],
        nd.value[0] <= nd.value[1],
        base + newpos + 1 <= u64::MAX,
    ensures
        r.id == nd.id,
        r.root == nd.root,
        r.kind == nd.kind,
        r.parent == (if adopt {
            node_id
        } else {
            nd.parent
        }),
        r.opened == nd.opened,
        r.childs@ == nd.childs@,
        r.instance == base + newpos + 1,
        r.key[0] == spec_frag_coord(nd.key[0] as int, splice as int, commaoff as int, newlen as int),
        r.key[1] == spec_frag_coord(nd.key[1] as int, splice as int, commaoff as int, newlen as int),
        r.value[0] == spec_frag_coord(
            nd.value[0] as int,
            splice as int,
            commaoff as int,
            newlen as int,
        ),
        r.value[1] == spec_frag_coord(
            nd.value[1] as int,
            splice as int,
            commaoff as int,
            newlen as int,
        ),
{
    let parent = if adopt {
        node_id
    } else {
        nd.parent
    };
    let nk0 = frag_coord(nd.key[0], splice, commaoff, newlen);
    let nk1 = frag_coord(nd.key[1], splice, commaoff, newlen);
    let nv0 = frag_coord(nd.value[0], splice, commaoff, newlen);
    let nv1 = frag_coord(nd.value[1], splice, commaoff, newlen);
    Node {
        root: nd.root,
        kind: nd.kind,
        parent,
        childs,
        key: [nk0, nk1],
        value: [nv0, nv1],
        id: nd.id,
        opened: nd.opened,
        instance: base + (newpos as u64) + 1,
    }
}

/// Moves one fragment coordinate to its place in the host buffer.
fn frag_coord(c: usize, splice: usize, commaoff: usize, newlen: usize) -> (r: usize)
    requires
        splice + commaoff + c <= usize::MAX,
    ensures
        r == spec_frag_coord(c as int, splice as int, commaoff as int, newlen as int),
{
    let tmp = splice + commaoff + c;
    let v = if tmp > 0 {
        tmp - 1
    } else {
        0
    };
    if v > newlen {
        newlen
    } else {
        v
    }
}

/// A strictly increasing list of `n` naturals below `n` holds every one of
/// them.
proof fn lemma_increasing_covers(s: Seq<int>, n: int)
    requires
        s.len() >= n,
        n >= 0,
        forall|j: int| 0 <= j < s.len() ==> 0 <= #[trigger] s[j] < n,
        forall|j1: int, j2: int| 0 <= j1 < j2 < s.len() ==> s[j1] < s[j2],
    ensures
        forall|x: int| 0 <= x < n ==> s.contains(x),
{
    // an increasing list below n is bounded below position by position
    assert forall|j: int| 0 <= j < s.len() implies s[j] >= j by {
        lemma_increasing_lower(s, j);
    }
    assert(s.len() == n) by {
        if s.len() > n {
            assert(s[n] >= n);
        }
    }
    assert forall|j: int| 0 <= j < s.len() implies s[j] <= j by {
        lemma_increasing_upper(s, n, j);
    }
    assert forall|x: int| 0 <= x < n implies s.contains(x) by {
        assert(s[x] == x);
    }
}

proof fn lemma_increasing_lower(s: Seq<int>, j: int)
    requires
        0 <= j < s.len(),
        forall|j1: int, j2: int| 0 <= j1 < j2 < s.len() ==> s[j1] < s[j2],
        forall|t: int| 0 <= t < s.len() ==> 0 <= #[trigger] s[t],
    ensures
        s[j] >= j,
    decreases j,
{
    if j > 0 {
        lemma_increasing_lower(s, j - 1);
        assert(s[j - 1] < s[j]);
    }
}

proof fn lemma_increasing_upper(s: Seq<int>, n: int, j: int)
    requires
        s.len() == n,
        0 <= j < s.len(),
        forall|j1: int, j2: int| 0 <= j1 < j2 < s.len() ==> s[j1] < s[j2],
        forall|t: int| 0 <= t < s.len() ==> #[trigger] s[t] < n,
    ensures
        s[j] <= j,
    decreases n - j,
{
    if j < n - 1 {
        lemma_increasing_upper(s, n, j + 1);
        assert(s[j] < s[j + 1]);
    }
}


/// The arena rebuilt for a removal is well-formed: the kept nodes carry
/// their old identifiers in their old order, every kept node's parent and
/// children are kept with it, the removed node and its sub-tree are gone,
/// and everything else stays.
#[verifier::rlimit(100)]
proof fn lemma_remove_rebuild(
    orig: Hson,
    f: Hson,
    kept: Seq<int>,
    p: int,
    node_id: u64,
    parent_id: u64,
    ai: int,
    bi: int,
)
    requires
        orig.wf(),
        0 < p < orig.node_count(),
        orig.nodes@[p].id == node_id,
        orig.pos_of(node_id) == p,
        parent_id == orig.nodes@[p].parent,
        0 <= ai <= bi <= orig.buffer().len(),
        kept.len() == f.nodes@.len(),
        kept.len() == f.indexes@.len(),
        kept.len() <= orig.node_count(),
        forall|j: int| 0 <= j < kept.len() ==> 0 <= #[trigger] kept[j] < orig.node_count(),
        forall|j1: int, j2: int| 0 <= j1 < j2 < kept.len() ==> kept[j1] < kept[j2],
        forall|j: int| 0 <= j < kept.len() ==> !orig.spec_gone(p, #[trigger] kept[j]),
        forall|x: int|
            0 <= x < orig.node_count() && !orig.spec_gone(p, x) ==> kept.contains(x),
        forall|j: int|
            0 <= j < kept.len() ==> {
                let od = orig.nodes@[#[trigger] kept[j]];
                let nn = f.nodes@[j];
                &&& nn.id == od.id
                &&& f.indexes@[j] == od.id
                &&& nn.root == od.root
                &&& nn.kind == od.kind
                &&& nn.parent == od.parent
                &&& nn.opened == od.opened
                &&& nn.key[0] == spec_cut_coord(od.key[0] as int, ai, bi)
                &&& nn.key[1] == spec_cut_coord(od.key[1] as int, ai, bi)
                &&& nn.value[0] == spec_cut_coord(od.value[0] as int, ai, bi)
                &&& nn.value[1] == spec_cut_coord(od.value[1] as int, ai, bi)
                &&& nn.instance == orig.spec_base() + j + 1
                &&& nn.childs@ == (if od.id == parent_id {
                    spec_without(od.childs@, node_id)
                } else {
                    od.childs@
                })
            },
        f.buffer().len() == ai + (orig.buffer().len() - bi),
        f.spec_base() == orig.spec_base(),
        f.spec_instances() == f.spec_base() + kept.len(),
        f.spec_id_count() == orig.spec_id_count(),
    ensures
        f.wf_arena(),
        !f.has_id(node_id),
        forall|id: u64| f.has_id(id) ==> orig.has_id(id),
        forall|id: u64|
            orig.has_id(id) && id != node_id && !orig.spec_descendants(p).contains(id)
                ==> f.has_id(id),
        kept.len() < orig.node_count(),
        f.node_count() > 0,
{
    let n = orig.node_count() as int;
    orig.lemma_descendants_below(p);
    orig.lemma_descendants_in_arena(p);
    orig.lemma_descendants_closed(p);
    orig.lemma_descendants_children(p);

            
            let cnt = kept.len();
            assert(f.nodes@.len() == cnt && f.indexes@.len() == cnt);
            assert(f.buffer().len() == ai + (orig.buffer().len() - bi));
            // identifiers are drawn injectively from the old arena
            assert forall|x: int, y: int|
                0 <= x < y < cnt implies f.nodes@[x].id != f.nodes@[y].id by {
                assert(kept[x] < kept[y]);
                assert(f.nodes@[x].id == orig.nodes@[kept[x]].id);
                assert(f.nodes@[y].id == orig.nodes@[kept[y]].id);
            }
            assert(f.ids_unique());
            // the root is kept first
            assert(!orig.spec_gone(p as int, 0)) by {
                if orig.spec_descendants(p as int).contains(orig.nodes@[0].id) {
                    let w = choose|w: int|
                        0 <= w < orig.spec_descendants(p as int).len() && orig.spec_descendants(
                            p as int,
                        )[w] == orig.nodes@[0].id;
                    orig.lemma_pos_of_id(0);
                    assert(orig.pos_of(orig.spec_descendants(p as int)[w]) > p);
                }
            }
            assert(kept.contains(0));
            assert(kept[0] == 0) by {
                let w = choose|w: int| 0 <= w < kept.len() && kept[w] == 0;
                if w > 0 {
                    assert(kept[0] < kept[w]);
                }
            }
            // each kept node satisfies the arena invariant in the new
            // document
            assert forall|j: int| 0 <= j < cnt implies f.wf_node_at(j) by {
                let t0 = kept[j];
                let od = orig.nodes@[t0];
                let nn = f.nodes@[j];
                assert(orig.wf_node_at(t0));
                // ranges stay inside the shorter buffer
                assert(nn.key[0] <= nn.key[1] <= f.buffer().len());
                assert(nn.value[0] <= nn.value[1] <= f.buffer().len());
                // root exactly at the front
                if j == 0 {
                    assert(t0 == 0);
                    assert(nn.root);
                } else {
                    assert(kept[0] < kept[j]);
                    assert(t0 > 0);
                    assert(!nn.root);
                }
                if j > 0 {
                    // the parent is kept too, earlier, and still lists this
                    // node
                    assert(orig.parent_ok(t0));
                    let x = od.parent;
                    let pp = orig.pos_of(x);
                    crate::nodemap::lemma_find_id(orig.nodes@, x, 0);
                    assert(orig.nodes@[pp].id == x);
                    // the parent is not the removed node
                    assert(pp != p) by {
                        if pp == p {
                            assert(x == node_id);
                            assert(orig.nodes@[p as int].childs@.contains(od.id));
                            let w = choose|w: int|
                                0 <= w < orig.nodes@[p as int].childs@.len() && orig.nodes@[
                                    p as int
                                ].childs@[w] == od.id;
                            assert(orig.spec_descendants(p as int)[w] == od.id);
                            assert(orig.spec_descendants(p as int).contains(od.id));
                            assert(orig.spec_gone(p as int, t0));
                        }
                    }
                    // nor one of its transitive children
                    assert(!orig.spec_descendants(p as int).contains(x)) by {
                        if orig.spec_descendants(p as int).contains(x) {
                            let w = choose|w: int|
                                0 <= w < orig.spec_descendants(p as int).len()
                                    && orig.spec_descendants(p as int)[w] == x;
                            assert(orig.pos_of(orig.spec_descendants(p as int)[w]) == pp);
                            assert(orig.nodes@[pp].childs@.contains(od.id));
                            let y = choose|y: int|
                                0 <= y < orig.nodes@[pp].childs@.len() && orig.nodes@[
                                    pp
                                ].childs@[y] == od.id;
                            assert(orig.spec_descendants(p as int).contains(
                                orig.nodes@[orig.pos_of(
                                    orig.spec_descendants(p as int)[w],
                                )].childs@[y],
                            ));
                            assert(orig.spec_gone(p as int, t0));
                        }
                    }
                    assert(!orig.spec_gone(p as int, pp));
                    assert(kept.contains(pp));
                    let jj = choose|jj: int| 0 <= jj < kept.len() && kept[jj] == pp;
                    assert(jj < j) by {
                        if jj >= j {
                            if jj > j {
                                assert(kept[j] < kept[jj]);
                            }
                        }
                    }
                    assert(f.nodes@[jj].id == x);
                    f.lemma_pos_of_id(jj);
                    assert(f.pos_of(nn.parent) == jj);
                    // membership in the parent's child list survives
                    assert(f.nodes@[jj].childs@.contains(nn.id)) by {
                        let oldcs = orig.nodes@[pp].childs@;
                        assert(oldcs.contains(od.id));
                        if orig.nodes@[pp].id == parent_id {
                            assert(od.id != node_id);
                            crate::edit::lemma_filter_props(oldcs, node_id);
                            assert(spec_without(oldcs, node_id).contains(od.id));
                        }
                    }
                    assert(f.parent_ok(j));
                }
                // the children are kept, later, and still point back
                assert(f.childs_ok(j)) by {
                    let cs = nn.childs@;
                    let oldcs = od.childs@;
                    assert(orig.childs_ok(t0));
                    if od.id == parent_id {
                        crate::edit::lemma_filter_props(oldcs, node_id);
                    }
                    assert forall|y: int| 0 <= y < cs.len() implies {
                        let c = f.pos_of(#[trigger] cs[y]);
                        &&& j < c < f.nodes@.len()
                        &&& f.nodes@[c].parent == f.nodes@[j].id
                    } by {
                        assert(cs[y] != node_id || od.id != parent_id);
                        assert(oldcs.contains(cs[y]));
                        let w = choose|w: int| 0 <= w < oldcs.len() && oldcs[w] == cs[y];
                        let cpos = orig.pos_of(oldcs[w]);
                        assert(t0 < cpos < orig.nodes@.len());
                        assert(orig.nodes@[cpos].parent == od.id);
                        crate::nodemap::lemma_find_id(orig.nodes@, oldcs[w], 0);
                        assert(orig.nodes@[cpos].id == cs[y]);
                        // the child is not the removed node
                        assert(cs[y] != node_id) by {
                            if cs[y] == node_id {
                                assert(cpos == p);
                                assert(orig.nodes@[p as int].parent == od.id);
                                assert(od.id == parent_id);
                            }
                        }
                        assert(cpos != p);
                        // nor one of its transitive children
                        assert(!orig.spec_descendants(p as int).contains(cs[y])) by {
                            if orig.spec_descendants(p as int).contains(cs[y]) {
                                let w2 = choose|w2: int|
                                    0 <= w2 < orig.spec_descendants(p as int).len()
                                        && orig.spec_descendants(p as int)[w2] == cs[y];
                                assert(orig.pos_of(orig.spec_descendants(p as int)[w2])
                                    == cpos);
                                // its parent would be the removed node or a
                                // marked one
                                assert(orig.nodes@[cpos].parent == orig.nodes@[p as int].id
                                    || orig.spec_descendants(p as int).contains(
                                    orig.nodes@[cpos].parent));
                                if orig.nodes@[cpos].parent == orig.nodes@[p as int].id {
                                    assert(od.id == node_id);
                                    assert(t0 == p);
                                } else {
                                    assert(orig.spec_descendants(p as int).contains(od.id));
                                    assert(orig.spec_gone(p as int, t0));
                                }
                            }
                        }
                        assert(!orig.spec_gone(p as int, cpos));
                        assert(kept.contains(cpos));
                        let jj = choose|jj: int| 0 <= jj < kept.len() && kept[jj] == cpos;
                        assert(jj > j) by {
                            if jj <= j {
                                if jj < j {
                                    assert(kept[jj] < kept[j]);
                                }
                            }
                        }
                        assert(f.nodes@[jj].id == cs[y]);
                        f.lemma_pos_of_id(jj);
                        assert(f.pos_of(cs[y]) == jj);
                        assert(f.nodes@[jj].parent == od.id);
                    }
                    assert(forall|x: int, y: int| 0 <= x < y < cs.len() ==> cs[x] != cs[y]);
                }
            }
            assert(f.wf_arena());
            // the removed identifier is gone
            assert(!f.has_id(node_id)) by {
                if f.has_id(node_id) {
                    let w = choose|w: int|
                        0 <= w < f.nodes@.len() && f.nodes@[w].id == node_id;
                    assert(f.nodes@[w].id == orig.nodes@[kept[w]].id);
                    orig.lemma_pos_of_id(kept[w]);
                    assert(kept[w] == p);
                    assert(!orig.spec_gone(p as int, kept[w]));
                }
            }
            // every kept identifier was there before; every unmarked one is
            // still there
            assert forall|id: u64| f.has_id(id) implies orig.has_id(id) by {
                let w = choose|w: int| 0 <= w < f.nodes@.len() && f.nodes@[w].id == id;
                assert(orig.nodes@[kept[w]].id == id);
            }
            assert forall|id: u64|
                orig.has_id(id) && id != node_id && !orig.spec_descendants(
                    orig.pos_of(node_id),
                ).contains(id) implies f.has_id(id) by {
                orig.lemma_has_id_find(id);
                let x = orig.pos_of(id);
                assert(!orig.spec_gone(p as int, x)) by {
                    if x == p {
                        assert(orig.nodes@[p as int].id == id);
                    }
                }
                assert(kept.contains(x));
                let jj = choose|jj: int| 0 <= jj < kept.len() && kept[jj] == x;
                assert(f.nodes@[jj].id == id);
            }
            assert(kept.len() < n) by {
                assert(!kept.contains(p as int));
                if kept.len() >= n {
                    lemma_increasing_covers(kept, n as int);
                    assert(kept.contains(p as int));
                }
            }
        
}


/// The arena rebuilt for an insertion is well-formed: the host nodes keep
/// their identifiers and order around the grafted block, the fragment's
/// non-root nodes slot in after the anchor with fresh identifiers, the
/// target's child list gains exactly the adoptees at the asked position,
/// and instances are renumbered by position.
#[verifier::rlimit(100)]
proof fn lemma_insert_rebuild(
    orig: Hson,
    frag: Hson,
    f: Hson,
    p: int,
    anchor: int,
    node_id: u64,
    frag_root_id: u64,
    idx: int,
    adoptees: Seq<u64>,
    apos: Seq<int>,
    newpchilds: Seq<u64>,
    sp: int,
    tl: int,
    commaoff: int,
    newlen: int,
    k: int,
)
    requires
        orig.wf(),
        frag.wf(),
        0 <= p <= anchor < orig.node_count(),
        orig.nodes@[p].id == node_id,
        orig.pos_of(node_id) == p,
        frag.node_count() == k + 1,
        k >= 0,
        frag_root_id == frag.nodes@[0].id,
        forall|qq: int|
            0 <= qq < frag.node_count() ==> frag.nodes@[qq].id > orig.spec_id_count(),
        f.spec_id_count() == frag.spec_id_count(),
        frag.spec_id_count() > orig.spec_id_count(),
        apos.len() == adoptees.len(),
        forall|x: int|
            0 <= x < apos.len() ==> 1 <= #[trigger] apos[x] < frag.node_count() && frag.nodes@[
                apos[x]
            ].id == adoptees[x] && frag.nodes@[apos[x]].parent == frag_root_id,
        forall|qq: int|
            1 <= qq < frag.node_count() && frag.nodes@[qq].parent == frag_root_id
                ==> adoptees.contains(#[trigger] frag.nodes@[qq].id),
        forall|x: int, y: int| 0 <= x < y < adoptees.len() ==> adoptees[x] != adoptees[y],
        0 <= idx <= orig.nodes@[p].childs@.len(),
        newpchilds == orig.nodes@[p].childs@.subrange(0, idx) + adoptees
            + orig.nodes@[p].childs@.subrange(idx, orig.nodes@[p].childs@.len() as int),
        f.nodes@.len() == orig.node_count() + k,
        f.indexes@.len() == orig.node_count() + k,
        forall|j: int|
            0 <= j <= anchor ==> spec_host_adjusted(
                orig,
                f.nodes@,
                f.indexes@,
                j,
                0,
                p,
                newpchilds,
                sp,
                tl,
            ),
        forall|j: int|
            anchor + 1 <= j < anchor + 1 + k ==> spec_frag_adjusted(
                frag,
                f.nodes@,
                f.indexes@,
                j,
                anchor,
                frag_root_id,
                node_id,
                sp,
                commaoff,
                newlen,
                orig.spec_base(),
            ),
        forall|j: int|
            anchor + 1 + k <= j < f.nodes@.len() ==> spec_host_adjusted(
                orig,
                f.nodes@,
                f.indexes@,
                j,
                k,
                p,
                newpchilds,
                sp,
                tl,
            ),
        f.spec_base() == orig.spec_base(),
        f.spec_instances() == f.spec_base() + f.nodes@.len(),
        f.buffer().len() == newlen,
        newlen == orig.buffer().len() + tl,
        0 <= sp <= orig.buffer().len(),
        tl >= 0,
        0 <= commaoff <= 1,
    ensures
        f.wf_arena(),
        forall|id: u64| orig.has_id(id) ==> f.has_id(id),
        f.has_id(node_id),
        f.node_count() >= orig.node_count(),
{
    let n = orig.node_count() as int;
    let fn_ = f.nodes@;
    // instantiate the three segment descriptions
    assert forall|j: int| 0 <= j <= anchor implies spec_host_adjusted(
        orig,
        fn_,
        f.indexes@,
        j,
        0,
        p,
        newpchilds,
        sp,
        tl,
    ) by {}
    assert forall|j: int| anchor + 1 <= j < anchor + 1 + k implies spec_frag_adjusted(
        frag,
        fn_,
        f.indexes@,
        j,
        anchor,
        frag_root_id,
        node_id,
        sp,
        commaoff,
        newlen,
        orig.spec_base(),
    ) by {}
    assert forall|j: int| anchor + 1 + k <= j < fn_.len() implies spec_host_adjusted(
        orig,
        fn_,
        f.indexes@,
        j,
        k,
        p,
        newpchilds,
        sp,
        tl,
    ) by {}
    // identifiers: hosts keep theirs, fragment nodes bring fresh ones
    assert forall|j: int| 0 <= j < fn_.len() implies 1 <= #[trigger] fn_[j].id
        <= f.spec_id_count() by {
        if j <= anchor {
            assert(spec_host_adjusted(orig, fn_, f.indexes@, j, 0, p, newpchilds, sp, tl));
            assert(orig.wf_node_at(j));
        } else if j < anchor + 1 + k {
            assert(spec_frag_adjusted(
                frag,
                fn_,
                f.indexes@,
                j,
                anchor,
                frag_root_id,
                node_id,
                sp,
                commaoff,
                newlen,
                orig.spec_base(),
            ));
            assert(frag.wf_node_at(j - anchor));
        } else {
            assert(spec_host_adjusted(orig, fn_, f.indexes@, j, k, p, newpchilds, sp, tl));
            assert(orig.wf_node_at(j - k));
        }
    }
    assert forall|a: int, b: int|
        0 <= a < b < fn_.len() implies fn_[a].id != fn_[b].id by {
        let ha = a <= anchor || a >= anchor + 1 + k;
        let hb = b <= anchor || b >= anchor + 1 + k;
        if a <= anchor {
            assert(spec_host_adjusted(orig, fn_, f.indexes@, a, 0, p, newpchilds, sp, tl));
        } else if a < anchor + 1 + k {
            assert(spec_frag_adjusted(
                frag,
                fn_,
                f.indexes@,
                a,
                anchor,
                frag_root_id,
                node_id,
                sp,
                commaoff,
                newlen,
                orig.spec_base(),
            ));
        } else {
            assert(spec_host_adjusted(orig, fn_, f.indexes@, a, k, p, newpchilds, sp, tl));
        }
        if b <= anchor {
            assert(spec_host_adjusted(orig, fn_, f.indexes@, b, 0, p, newpchilds, sp, tl));
        } else if b < anchor + 1 + k {
            assert(spec_frag_adjusted(
                frag,
                fn_,
                f.indexes@,
                b,
                anchor,
                frag_root_id,
                node_id,
                sp,
                commaoff,
                newlen,
                orig.spec_base(),
            ));
        } else {
            assert(spec_host_adjusted(orig, fn_, f.indexes@, b, k, p, newpchilds, sp, tl));
        }
        if ha && hb {
            let ta = if a <= anchor { a } else { a - k };
            let tb = if b <= anchor { b } else { b - k };
            assert(ta < tb);
            assert(orig.wf_node_at(ta));
            assert(orig.wf_node_at(tb));
            assert(fn_[a].id == orig.nodes@[ta].id);
            assert(fn_[b].id == orig.nodes@[tb].id);
        } else if !ha && !hb {
            assert(fn_[a].id == frag.nodes@[a - anchor].id);
            assert(fn_[b].id == frag.nodes@[b - anchor].id);
        } else if ha && !hb {
            let ta = if a <= anchor { a } else { a - k };
            assert(orig.wf_node_at(ta));
            assert(fn_[a].id == orig.nodes@[ta].id);
            assert(fn_[a].id <= orig.spec_id_count());
            assert(fn_[b].id == frag.nodes@[b - anchor].id);
            assert(fn_[b].id > orig.spec_id_count());
        } else {
            let tb = if b <= anchor { b } else { b - k };
            assert(orig.wf_node_at(tb));
            assert(fn_[b].id == orig.nodes@[tb].id);
            assert(fn_[a].id == frag.nodes@[a - anchor].id);
            assert(fn_[a].id > orig.spec_id_count());
        }
    }
    assert(f.ids_unique());
    // the spliced child list of the target is duplicate-free and its
    // members keep or gain valid positions
    let oldpc = orig.nodes@[p].childs@;
    assert(orig.wf_node_at(p));
    assert(orig.childs_ok(p));
    assert forall|x: int, y: int|
        0 <= x < y < newpchilds.len() implies newpchilds[x] != newpchilds[y] by {
        let la = idx;
        let lb = idx + adoptees.len();
        let vx = newpchilds[x];
        let vy = newpchilds[y];
        // each element is either an old child or an adoptee
        if x < la {
            assert(vx == oldpc[x]);
        } else if x < lb {
            assert(vx == adoptees[x - la]);
        } else {
            assert(vx == oldpc[x - adoptees.len()]);
        }
        if y < la {
            assert(vy == oldpc[y]);
        } else if y < lb {
            assert(vy == adoptees[y - la]);
        } else {
            assert(vy == oldpc[y - adoptees.len()]);
        }
        let x_old = x < la || x >= lb;
        let y_old = y < la || y >= lb;
        if x_old && y_old {
            let ox = if x < la { x } else { x - adoptees.len() };
            let oy = if y < la { y } else { y - adoptees.len() };
            assert(ox < oy);
        } else if !x_old && !y_old {
        } else if x_old && !y_old {
            // an old child is an old identifier, an adoptee a fresh one
            let ox = if x < la { x } else { x - adoptees.len() };
            let c = orig.pos_of(oldpc[ox]);
            crate::nodemap::lemma_find_id(orig.nodes@, oldpc[ox], 0);
            assert(orig.nodes@[c].id == oldpc[ox]);
            assert(orig.wf_node_at(c));
            let wq = apos[y - la];
            assert(frag.nodes@[wq].id == vy);
        } else {
            let oy = if y < la { y } else { y - adoptees.len() };
            let c = orig.pos_of(oldpc[oy]);
            crate::nodemap::lemma_find_id(orig.nodes@, oldpc[oy], 0);
            assert(orig.nodes@[c].id == oldpc[oy]);
            assert(orig.wf_node_at(c));
            let wq = apos[x - la];
            assert(frag.nodes@[wq].id == vx);
        }
    }
    // every node satisfies the arena invariant in the new document
    assert forall|j: int| 0 <= j < fn_.len() implies f.wf_node_at(j) by {
        let m = fn_[j];
        if j <= anchor || j >= anchor + 1 + k {
            let t = if j <= anchor { j } else { j - k };
            let od = orig.nodes@[t];
            if j <= anchor {
                assert(spec_host_adjusted(orig, fn_, f.indexes@, j, 0, p, newpchilds, sp, tl));
            } else {
                assert(spec_host_adjusted(orig, fn_, f.indexes@, j, k, p, newpchilds, sp, tl));
            }
            assert(orig.wf_node_at(t));
            // ranges stay ordered and inside the longer buffer
            assert(m.key[0] <= m.key[1] <= f.buffer().len());
            assert(m.value[0] <= m.value[1] <= f.buffer().len());
            if j > 0 {
                assert(t > 0);
                assert(orig.parent_ok(t));
                let x = od.parent;
                let pp = orig.pos_of(x);
                crate::nodemap::lemma_find_id(orig.nodes@, x, 0);
                let fpp = if pp <= anchor { pp } else { pp + k };
                if pp <= anchor {
                    assert(spec_host_adjusted(orig, fn_, f.indexes@, fpp, 0, p, newpchilds, sp, tl));
                } else {
                    assert(spec_host_adjusted(orig, fn_, f.indexes@, fpp, k, p, newpchilds, sp, tl));
                }
                assert(fn_[fpp].id == x);
                assert(fpp < j);
                f.lemma_pos_of_id(fpp);
                assert(f.pos_of(m.parent) == fpp);
                // membership in the parent's child list survives the splice
                assert(fn_[fpp].childs@.contains(m.id)) by {
                    let pcs = orig.nodes@[pp].childs@;
                    assert(pcs.contains(od.id));
                    let w = choose|w: int| 0 <= w < pcs.len() && pcs[w] == od.id;
                    if pp == p {
                        if w < idx {
                            assert(newpchilds[w] == od.id);
                        } else {
                            assert(newpchilds[w + adoptees.len()] == od.id);
                        }
                    }
                }
                assert(f.parent_ok(j));
            }
            // the children keep valid, later positions and point back
            assert(f.childs_ok(j)) by {
                let cs = m.childs@;
                assert(orig.childs_ok(t));
                assert forall|y: int| 0 <= y < cs.len() implies {
                    let c = f.pos_of(#[trigger] cs[y]);
                    &&& j < c < fn_.len()
                    &&& fn_[c].parent == fn_[j].id
                } by {
                    if t == p && idx <= y < idx + adoptees.len() {
                        // an adoptee: it sits in the grafted block
                        assert(cs[y] == adoptees[y - idx]);
                        let wq = apos[y - idx];
                        let fc = anchor + wq;
                        assert(spec_frag_adjusted(frag, fn_, f.indexes@, fc, anchor, frag_root_id, node_id, sp, commaoff, newlen, orig.spec_base()));
                        assert(fn_[fc].id == adoptees[y - idx]);
                        assert(fn_[fc].parent == node_id);
                        f.lemma_pos_of_id(fc);
                        assert(f.pos_of(cs[y]) == fc);
                        assert(fn_[j].id == node_id);
                        assert(fc > anchor >= p);
                        assert(j == p);
                    } else {
                        // an old child of an old node
                        let oy = if t == p {
                            if y < idx {
                                y
                            } else {
                                y - adoptees.len()
                            }
                        } else {
                            y
                        };
                        let ocs = od.childs@;
                        assert(cs[y] == ocs[oy]);
                        let c = orig.pos_of(ocs[oy]);
                        assert(t < c < n);
                        crate::nodemap::lemma_find_id(orig.nodes@, ocs[oy], 0);
                        let fc = if c <= anchor { c } else { c + k };
                        if c <= anchor {
                            assert(spec_host_adjusted(orig, fn_, f.indexes@, fc, 0, p, newpchilds, sp, tl));
                        } else {
                            assert(spec_host_adjusted(orig, fn_, f.indexes@, fc, k, p, newpchilds, sp, tl));
                        }
                        assert(fn_[fc].id == ocs[oy]);
                        f.lemma_pos_of_id(fc);
                        assert(f.pos_of(cs[y]) == fc);
                        assert(fc > j);
                        assert(fn_[fc].parent == orig.nodes@[c].parent);
                        assert(fn_[j].id == od.id);
                    }
                }
                if t == p {
                    assert(forall|x: int, y: int|
                        0 <= x < y < cs.len() ==> cs[x] != cs[y]);
                } else {
                    assert(forall|x: int, y: int|
                        0 <= x < y < cs.len() ==> cs[x] != cs[y]);
                }
            }
        } else {
            // a grafted fragment node
            let q = j - anchor;
            let od = frag.nodes@[q];
            assert(spec_frag_adjusted(frag, fn_, f.indexes@, j, anchor, frag_root_id, node_id, sp, commaoff, newlen, orig.spec_base()));
            assert(spec_host_adjusted(orig, fn_, f.indexes@, p, 0, p, newpchilds, sp, tl));
            assert(frag.wf_node_at(q));
            assert(1 <= q < frag.node_count());
            assert(!m.root);
            assert(m.key[0] <= m.key[1] <= f.buffer().len());
            assert(m.value[0] <= m.value[1] <= f.buffer().len());
            assert(j > 0);
            // its parent: the target for an adoptee, its fragment parent
            // otherwise
            if od.parent == frag_root_id {
                assert(m.parent == node_id);
                assert(fn_[p].id == node_id);
                f.lemma_pos_of_id(p);
                assert(f.pos_of(m.parent) == p);
                assert(p < j);
                // the target's new child list holds the adoptee
                assert(fn_[p].childs@ == newpchilds);
                assert(adoptees.contains(od.id));
                let w = choose|w: int| 0 <= w < adoptees.len() && adoptees[w] == od.id;
                assert(newpchilds[idx + w] == od.id);
                assert(newpchilds.contains(m.id));
                assert(f.parent_ok(j));
            } else {
                assert(frag.parent_ok(q));
                let qp = frag.pos_of(od.parent);
                crate::nodemap::lemma_find_id(frag.nodes@, od.parent, 0);
                assert(frag.nodes@[qp].id == od.parent);
                assert(qp >= 1) by {
                    if qp == 0 {
                        assert(od.parent == frag_root_id);
                    }
                }
                let fqp = anchor + qp;
                assert(spec_frag_adjusted(frag, fn_, f.indexes@, fqp, anchor, frag_root_id, node_id, sp, commaoff, newlen, orig.spec_base()));
                assert(fn_[fqp].id == od.parent) by {
                    assert(frag.nodes@[qp].id != frag_root_id) by {
                        assert(frag.ids_unique());
                    }
                }
                f.lemma_pos_of_id(fqp);
                assert(f.pos_of(m.parent) == fqp);
                assert(fqp < j);
                assert(fn_[fqp].childs@ == frag.nodes@[qp].childs@);
                assert(fn_[fqp].childs@.contains(m.id));
                assert(f.parent_ok(j));
            }
            // its children are grafted with it
            assert(f.childs_ok(j)) by {
                let cs = m.childs@;
                assert(cs == od.childs@);
                assert(frag.childs_ok(q));
                assert forall|y: int| 0 <= y < cs.len() implies {
                    let c = f.pos_of(#[trigger] cs[y]);
                    &&& j < c < fn_.len()
                    &&& fn_[c].parent == fn_[j].id
                } by {
                    let qc = frag.pos_of(cs[y]);
                    assert(q < qc < frag.node_count());
                    crate::nodemap::lemma_find_id(frag.nodes@, cs[y], 0);
                    let fc = anchor + qc;
                    assert(spec_frag_adjusted(frag, fn_, f.indexes@, fc, anchor, frag_root_id, node_id, sp, commaoff, newlen, orig.spec_base()));
                    assert(fn_[fc].id == cs[y]);
                    f.lemma_pos_of_id(fc);
                    assert(f.pos_of(cs[y]) == fc);
                    assert(fc > j);
                    assert(frag.nodes@[qc].parent == od.id);
                    assert(od.id != frag_root_id) by {
                        assert(frag.ids_unique());
                    }
                    assert(fn_[fc].parent == od.id);
                    assert(fn_[j].id == od.id);
                }
            }
        }
    }
    assert(f.wf_arena());
    assert forall|id: u64| orig.has_id(id) implies f.has_id(id) by {
        orig.lemma_has_id_find(id);
        let t = orig.pos_of(id);
        let fj = if t <= anchor { t } else { t + k };
        if t <= anchor {
            assert(spec_host_adjusted(orig, fn_, f.indexes@, fj, 0, p, newpchilds, sp, tl));
        } else {
            assert(spec_host_adjusted(orig, fn_, f.indexes@, fj, k, p, newpchilds, sp, tl));
        }
        assert(fn_[fj].id == id);
    }
    assert(spec_host_adjusted(orig, fn_, f.indexes@, p, 0, p, newpchilds, sp, tl));
    assert(fn_[p].id == node_id);
}


impl Hson {
    /// Replaces a node by a fragment: removes the node and its sub-tree,
    /// then inserts the fragment's children at the freed child position of
    /// the former parent.
    /// The position of the replaced node among its parent's children.
    pub open spec fn spec_replace_slot(pre: Hson, node_id: u64) -> int {
        spec_index_of_id(pre.node_of(pre.node_of(node_id).parent).childs@, node_id, 0)
    }

    /// Whether the replacement lands in the middle of the freed parent's
    /// children, so the fragment must carry its own separating comma.
    pub open spec fn spec_replace_middle(pre: Hson, node_id: u64) -> bool {
        Hson::spec_replace_slot(pre, node_id) + 1 < pre.node_of(
            pre.node_of(node_id).parent,
        ).childs@.len()
    }

    /// Replaces a node by a fragment: removes the node and its sub-tree,
    /// then inserts the fragment's children at the freed child position of
    /// the former parent. The fragment is validated first, so a failure of
    /// any kind leaves the document exactly as it stood.
    #[verifier::rlimit(100)]
    pub fn replace(&mut self, node_id: u64, s: &str) -> (r: Result<(), HsonError>)
        requires
            old(self).can_insert(s@),
            old(self).has_id(node_id) ==> !old(self).node_of(node_id).root,
        ensures
            r is Err ==> *final(self) == *old(self),
            r == Err::<(), HsonError>(HsonError::UnknownIdentifier(node_id)) <==> !old(
                self,
            ).has_id(node_id),
            r is Ok <==> (old(self).has_id(node_id) && spec_fragment_ok(
                s@,
                Hson::spec_replace_middle(*old(self), node_id),
            )),
            r is Ok ==> {
                &&& final(self).wf()
                &&& !final(self).has_id(node_id)
                &&& (forall|id: u64|
                    old(self).spec_descendants(old(self).pos_of(node_id)).contains(id)
                        ==> !(#[trigger] final(self).has_id(id)))
                &&& (forall|id: u64|
                    old(self).has_id(id) && id != node_id && !old(self).spec_descendants(
                        old(self).pos_of(node_id),
                    ).contains(id) ==> #[trigger] final(self).has_id(id))
                &&& (exists|ad: Seq<u64>|
                    #[trigger] final(self).node_of(old(self).node_of(node_id).parent).childs@
                        == old(self).node_of(old(self).node_of(node_id).parent).childs@.subrange(
                        0,
                        Hson::spec_replace_slot(*old(self), node_id),
                    ) + ad + old(self).node_of(
                        old(self).node_of(node_id).parent,
                    ).childs@.subrange(
                        Hson::spec_replace_slot(*old(self), node_id) + 1,
                        old(self).node_of(
                            old(self).node_of(node_id).parent,
                        ).childs@.len() as int,
                    ))
            },
    {
        proof {
            self.lemma_has_id_find(node_id);
        }
        let p = match self.nodes.position_of(node_id) {
            Some(p) => p,
            None => {
                proof {
                    if self.has_id(node_id) {
                        self.lemma_has_id_find(node_id);
                    }
                }
                return Err(HsonError::UnknownIdentifier(node_id));
            },
        };
        proof {
            self.lemma_pos_of_id(p as int);
            assert(self.wf_node_at(p as int));
            assert(p > 0);
        }
        let node = self.nodes.at(p);
        let parent_id = node.parent;
        proof {
            assert(self.parent_ok(p as int));
        }
        let pp = match self.nodes.position_of(parent_id) {
            Some(q) => q,
            None => {
                proof {
                    assert(false);
                }
                return Err(HsonError::UnknownIdentifier(parent_id));
            },
        };
        proof {
            assert(self.wf_node_at(pp as int));
            assert(self.childs_ok(pp as int));
        }
        let pn = self.nodes.at(pp);
        let clen = pn.childs.len();
        let slot = match index_of_id(&pn.childs, node_id) {
            Some(w) => w,
            None => {
                proof {
                    lemma_index_of_id(self.nodes@[pp as int].childs@, node_id, 0);
                    let w = choose|w: int|
                        0 <= w < self.nodes@[pp as int].childs@.len() && self.nodes@[
                            pp as int
                        ].childs@[w] == node_id;
                    assert(false);
                }
                return Err(HsonError::UnknownIdentifier(node_id));
            },
        };
        let middle = slot + 1 < clen;
        proof {
            assert(self.node_of(node_id) == self.nodes@[p as int]);
            assert(self.node_of(parent_id) == self.nodes@[pp as int]);
            assert(slot as int == Hson::spec_replace_slot(*self, node_id));
            assert(middle == Hson::spec_replace_middle(*self, node_id));
        }
        // validate the fragment exactly as the insertion will read it; on
        // failure the document has not been touched
        let raw = crate::chars::str_to_chars(s);
        let mut frag_text = crate::chars::clean(raw.as_slice());
        proof {
            crate::chars::lemma_clean_len(s@, 0, false, ' ');
        }
        let ghost cl0 = frag_text@;
        if middle && frag_text.len() >= 2 && frag_text[frag_text.len() - 2] != ',' {
            let at = frag_text.len() - 1;
            frag_text.insert(at, ',');
            proof {
                assert(frag_text@ =~= cl0.subrange(0, cl0.len() - 1) + seq![','] + seq![
                    cl0.last()
                ]);
            }
        }
        proof {
            assert(frag_text@ == spec_fragment_text(s@, middle));
        }
        let fs = crate::chars::chars_to_string(frag_text.as_slice());
        let mut probe = Hson::new();
        match probe.parse(fs.as_str()) {
            Ok(_) => {},
            Err(_) => {
                proof {
                    assert(!crate::scan::spec_accepts(crate::chars::spec_clean(fs@)));
                    assert(!spec_fragment_ok(s@, middle));
                }
                return Err(HsonError::FragmentError);
            },
        }
        proof {
            assert(crate::scan::scan_matches(
                probe.nodes@,
                crate::scan::spec_parse_result(crate::chars::spec_clean(fs@))->Some_0,
                0u64,
                0u64,
            ));
        }
        if probe.nodes.len() == 0 {
            proof {
                assert(crate::scan::spec_parse_result(
                    crate::chars::spec_clean(fs@),
                )->Some_0.len() == 0);
                assert(!spec_fragment_ok(s@, middle));
            }
            return Err(HsonError::FragmentError);
        }
        if probe.data.len() < 2 {
            proof {
                assert(probe.buffer().len() == crate::chars::spec_clean(fs@).len());
                assert(!spec_fragment_ok(s@, middle));
            }
            return Err(HsonError::FragmentError);
        }
        proof {
            assert(spec_fragment_ok(s@, middle));
        }
        // the two steps; the validation above owes both their successes
        let ghost pre0 = *self;
        let ghost oldpc = self.nodes@[pp as int].childs@;
        match self.remove_subtree(node_id) {
            Ok(_) => {},
            Err(e) => {
                proof {
                    assert(false);
                }
                return Err(e);
            },
        }
        let ghost mid = *self;
        proof {
            assert(Hson::spec_remove_effect(pre0, mid, node_id));
            // the parent survives: it is neither the node nor below it
            assert(parent_id != node_id) by {
                assert(pre0.nodes@[pp as int].id == parent_id);
            }
            assert(!pre0.spec_descendants(pre0.pos_of(node_id)).contains(parent_id)) by {
                pre0.lemma_descendants_below(p as int);
                if pre0.spec_descendants(p as int).contains(parent_id) {
                    let w = choose|w: int|
                        0 <= w < pre0.spec_descendants(p as int).len() && pre0.spec_descendants(
                            p as int,
                        )[w] == parent_id;
                    pre0.lemma_pos_of_id(pp as int);
                    assert(pre0.pos_of(pre0.spec_descendants(p as int)[w]) == pp);
                }
            }
            assert(mid.has_id(parent_id));
            // the freed child list is the old one with the slot taken out
            lemma_without_is_remove_at(oldpc, node_id, slot as int);
            assert(mid.node_of(parent_id).childs@ == oldpc.subrange(0, slot as int)
                + oldpc.subrange(slot + 1, oldpc.len() as int));
            assert(mid.node_of(parent_id).childs@.len() == clen - 1);
            // the insertion's own conditions hold on the freed document
            assert(spec_insert_middle(mid, parent_id, slot as int) == middle);
            assert(spec_fragment_ok(s@, spec_insert_middle(mid, parent_id, slot as int)));
            assert(mid.can_insert(s@));
            assert(!(slot > 0 && slot as int > mid.node_of(parent_id).childs@.len()));
        }
        let r2 = self.insert_fragment(parent_id, slot, s);
        proof {
            assert(r2 is Ok);
            assert(pre0 == *old(self));
            let tup = choose|sp: int, mid_: Seq<char>, ad: Seq<u64>|
                Hson::spec_insert_effect(mid, *self, parent_id, slot as int, mid_, sp, ad);
            assert(Hson::spec_insert_effect(
                mid,
                *self,
                parent_id,
                slot as int,
                tup.1,
                tup.0,
                tup.2,
            ));
            // the replaced identifier and its sub-tree stay gone: they are
            // old identifiers, and the insertion adds only fresh ones
            assert(!self.has_id(node_id)) by {
                if self.has_id(node_id) {
                    assert(mid.has_id(node_id) || node_id > mid.spec_id_count());
                    assert(pre0.nodes@[p as int].id == node_id);
                    assert(pre0.wf_node_at(p as int));
                }
            }
            pre0.lemma_descendants_in_arena(p as int);
            assert forall|id: u64|
                pre0.spec_descendants(pre0.pos_of(node_id)).contains(id) implies !(
            #[trigger] self.has_id(id)) by {
                assert(!mid.has_id(id));
                if self.has_id(id) {
                    assert(mid.has_id(id) || id > mid.spec_id_count());
                    let w = choose|w: int|
                        0 <= w < pre0.spec_descendants(p as int).len() && pre0.spec_descendants(
                            p as int,
                        )[w] == id;
                    assert(pre0.has_id(pre0.spec_descendants(p as int)[w]));
                    pre0.lemma_has_id_find(id);
                    assert(pre0.wf_node_at(pre0.pos_of(id)));
                    assert(id <= pre0.spec_id_count());
                }
            }
            assert forall|id: u64|
                pre0.has_id(id) && id != node_id && !pre0.spec_descendants(
                    pre0.pos_of(node_id),
                ).contains(id) implies #[trigger] self.has_id(id) by {
                assert(mid.has_id(id));
            }
            // the freed slot now holds the adopted children, between the
            // untouched neighbours
            assert(self.node_of(parent_id).childs@ == oldpc.subrange(0, slot as int) + tup.2
                + oldpc.subrange(slot + 1, oldpc.len() as int)) by {
                let midpc = mid.node_of(parent_id).childs@;
                assert(self.node_of(parent_id).childs@ == midpc.subrange(0, slot as int)
                    + tup.2 + midpc.subrange(slot as int, midpc.len() as int));
                assert(midpc.subrange(0, slot as int) =~= oldpc.subrange(0, slot as int));
                assert(midpc.subrange(slot as int, midpc.len() as int) =~= oldpc.subrange(
                    slot + 1,
                    oldpc.len() as int,
                ));
            }
            assert(old(self).node_of(node_id).parent == parent_id);
            assert(old(self).node_of(old(self).node_of(node_id).parent).childs@ == oldpc);
            assert(Hson::spec_replace_slot(*old(self), node_id) == slot);
        }
        r2
    }
}


/// The rebuilt document realizes the removal effect: the sub-tree's
/// identifiers are gone and every survivor keeps its fields with its
/// offsets moved across the cut span.
#[verifier::rlimit(100)]
proof fn lemma_remove_effect(
    orig: Hson,
    next: Hson,
    kept: Seq<int>,
    p: int,
    node_id: u64,
    parent_id: u64,
    ai: int,
    bi: int,
)
    requires
        orig.wf(),
        0 < p < orig.node_count(),
        orig.nodes@[p].id == node_id,
        orig.pos_of(node_id) == p,
        parent_id == orig.nodes@[p].parent,
        0 <= ai <= bi <= orig.buffer().len(),
        orig.spec_cut_span(p) == (ai, bi),
        kept.len() == next.nodes@.len(),
        forall|j: int| 0 <= j < kept.len() ==> 0 <= #[trigger] kept[j] < orig.node_count(),
        forall|j1: int, j2: int| 0 <= j1 < j2 < kept.len() ==> kept[j1] < kept[j2],
        forall|j: int| 0 <= j < kept.len() ==> !orig.spec_gone(p, #[trigger] kept[j]),
        forall|x: int|
            0 <= x < orig.node_count() && !orig.spec_gone(p, x) ==> kept.contains(x),
        forall|j: int|
            0 <= j < kept.len() ==> {
                let od = orig.nodes@[#[trigger] kept[j]];
                let nn = next.nodes@[j];
                &&& nn.id == od.id
                &&& nn.root == od.root
                &&& nn.kind == od.kind
                &&& nn.parent == od.parent
                &&& nn.opened == od.opened
                &&& nn.key[0] == spec_cut_coord(od.key[0] as int, ai, bi)
                &&& nn.key[1] == spec_cut_coord(od.key[1] as int, ai, bi)
                &&& nn.value[0] == spec_cut_coord(od.value[0] as int, ai, bi)
                &&& nn.value[1] == spec_cut_coord(od.value[1] as int, ai, bi)
                &&& nn.childs@ == (if od.id == parent_id {
                    spec_without(od.childs@, node_id)
                } else {
                    od.childs@
                })
            },
        next.ids_unique(),
        next.buffer() == orig.buffer().subrange(0, ai) + orig.buffer().subrange(
            bi,
            orig.buffer().len() as int,
        ),
    ensures
        Hson::spec_remove_effect(orig, next, node_id),
{
    // the sub-tree's identifiers are all gone
    assert forall|id: u64|
        orig.spec_descendants(orig.pos_of(node_id)).contains(id) implies !(
    #[trigger] next.has_id(id)) by {
        orig.lemma_descendants_below(p);
        if next.has_id(id) {
            let w = choose|w: int| 0 <= w < next.nodes@.len() && next.nodes@[w].id == id;
            assert(next.nodes@[w].id == orig.nodes@[kept[w]].id);
            let x = choose|x: int|
                0 <= x < orig.spec_descendants(p).len() && orig.spec_descendants(p)[x] == id;
            orig.lemma_pos_of_id(kept[w]);
            assert(orig.pos_of(orig.spec_descendants(p)[x]) == kept[w]);
            assert(orig.spec_gone(p, kept[w]));
        }
    }
    // every surviving node keeps its fields, with offsets moved across the
    // cut and the freed child slot taken out
    assert forall|id: u64| #[trigger] next.has_id(id) implies ({
        let span = orig.spec_cut_span(orig.pos_of(node_id));
        let n0 = orig.node_of(id);
        let n1 = next.node_of(id);
        &&& n1.kind == n0.kind
        &&& n1.root == n0.root
        &&& n1.opened == n0.opened
        &&& n1.parent == n0.parent
        &&& n1.key[0] == spec_cut_coord(n0.key[0] as int, span.0, span.1)
        &&& n1.key[1] == spec_cut_coord(n0.key[1] as int, span.0, span.1)
        &&& n1.value[0] == spec_cut_coord(n0.value[0] as int, span.0, span.1)
        &&& n1.value[1] == spec_cut_coord(n0.value[1] as int, span.0, span.1)
        &&& n1.childs@ == (if n0.id == orig.node_of(node_id).parent {
            spec_without(n0.childs@, node_id)
        } else {
            n0.childs@
        })
        &&& ((n0.key[1] <= ai || n0.key[0] >= bi) ==> next.buffer().subrange(
            n1.key[0] as int,
            n1.key[1] as int,
        ) == orig.buffer().subrange(n0.key[0] as int, n0.key[1] as int))
        &&& ((n0.value[1] <= ai || n0.value[0] >= bi) ==> next.buffer().subrange(
            n1.value[0] as int,
            n1.value[1] as int,
        ) == orig.buffer().subrange(n0.value[0] as int, n0.value[1] as int))
    }) by {
        next.lemma_has_id_find(id);
        let w = next.pos_of(id);
        assert(next.nodes@[w].id == orig.nodes@[kept[w]].id);
        orig.lemma_pos_of_id(kept[w]);
        assert(orig.pos_of(id) == kept[w]);
        assert(orig.node_of(id) == orig.nodes@[kept[w]]);
        assert(orig.node_of(node_id) == orig.nodes@[p]);
        let n0 = orig.node_of(id);
        let n1 = next.node_of(id);
        assert(orig.wf_node_at(kept[w]));
        if n0.key[1] <= ai {
            lemma_cut_keeps_prefix(
                orig.buffer(),
                next.buffer(),
                ai,
                bi,
                n0.key[0] as int,
                n0.key[1] as int,
            );
        } else if n0.key[0] >= bi {
            lemma_cut_keeps_suffix(
                orig.buffer(),
                next.buffer(),
                ai,
                bi,
                n0.key[0] as int,
                n0.key[1] as int,
            );
        }
        if n0.value[1] <= ai {
            lemma_cut_keeps_prefix(
                orig.buffer(),
                next.buffer(),
                ai,
                bi,
                n0.value[0] as int,
                n0.value[1] as int,
            );
        } else if n0.value[0] >= bi {
            lemma_cut_keeps_suffix(
                orig.buffer(),
                next.buffer(),
                ai,
                bi,
                n0.value[0] as int,
                n0.value[1] as int,
            );
        }
    }
}


/// The rebuilt document realizes the insertion effect: the target's child
/// list is the spliced one, the adoptees are fresh and point at the
/// target, and every pre-existing node survives with its offsets moved
/// across the splice.
#[verifier::rlimit(100)]
proof fn lemma_insert_effect(
    orig: Hson,
    frag: Hson,
    next: Hson,
    p: int,
    anchor: int,
    node_id: u64,
    frag_root_id: u64,
    idx: int,
    adoptees: Seq<u64>,
    apos: Seq<int>,
    newpchilds: Seq<u64>,
    sp: int,
    mid: Seq<char>,
    commaoff: int,
    newlen: int,
    k: int,
)
    requires
        orig.wf(),
        frag.wf(),
        0 <= p <= anchor < orig.node_count(),
        orig.nodes@[p].id == node_id,
        orig.pos_of(node_id) == p,
        frag.node_count() == k + 1,
        k >= 0,
        frag_root_id == frag.nodes@[0].id,
        forall|qq: int|
            0 <= qq < frag.node_count() ==> frag.nodes@[qq].id > orig.spec_id_count(),
        apos.len() == adoptees.len(),
        forall|x: int|
            0 <= x < apos.len() ==> 1 <= #[trigger] apos[x] < frag.node_count() && frag.nodes@[
                apos[x]
            ].id == adoptees[x] && frag.nodes@[apos[x]].parent == frag_root_id,
        0 <= idx <= orig.nodes@[p].childs@.len(),
        newpchilds == orig.nodes@[p].childs@.subrange(0, idx) + adoptees
            + orig.nodes@[p].childs@.subrange(idx, orig.nodes@[p].childs@.len() as int),
        next.nodes@.len() == orig.node_count() + k,
        next.indexes@.len() == orig.node_count() + k,
        forall|j: int|
            0 <= j <= anchor ==> spec_host_adjusted(
                orig,
                next.nodes@,
                next.indexes@,
                j,
                0,
                p,
                newpchilds,
                sp,
                mid.len() as int,
            ),
        forall|j: int|
            anchor + 1 <= j < anchor + 1 + k ==> spec_frag_adjusted(
                frag,
                next.nodes@,
                next.indexes@,
                j,
                anchor,
                frag_root_id,
                node_id,
                sp,
                commaoff,
                newlen,
                orig.spec_base(),
            ),
        forall|j: int|
            anchor + 1 + k <= j < next.nodes@.len() ==> spec_host_adjusted(
                orig,
                next.nodes@,
                next.indexes@,
                j,
                k,
                p,
                newpchilds,
                sp,
                mid.len() as int,
            ),
        next.ids_unique(),
        0 <= sp <= orig.buffer().len(),
        next.buffer() == orig.buffer().subrange(0, sp) + mid + orig.buffer().subrange(
            sp,
            orig.buffer().len() as int,
        ),
    ensures
        Hson::spec_insert_effect(orig, next, node_id, idx, mid, sp, adoptees),
{
    let fn_ = next.nodes@;
    let tl = mid.len() as int;
    assert(spec_host_adjusted(orig, fn_, next.indexes@, p, 0, p, newpchilds, sp, tl));
    assert(fn_[p].id == node_id);
    next.lemma_pos_of_id(p);
    assert(next.pos_of(node_id) == p);
    assert(next.has_id(node_id));
    assert(next.node_of(node_id).childs@ == newpchilds);
    assert(orig.node_of(node_id) == orig.nodes@[p]);
    // the adoptees are fresh, present, and point at the target
    assert forall|j: int|
        0 <= j < adoptees.len() implies !orig.has_id(#[trigger] adoptees[j]) && next.has_id(
        adoptees[j]) && next.node_of(adoptees[j]).parent == node_id by {
        let q = apos[j];
        let fj = anchor + q;
        assert(spec_frag_adjusted(
            frag,
            fn_,
            next.indexes@,
            fj,
            anchor,
            frag_root_id,
            node_id,
            sp,
            commaoff,
            newlen,
            orig.spec_base(),
        ));
        assert(fn_[fj].id == adoptees[j]);
        assert(fn_[fj].parent == node_id);
        next.lemma_pos_of_id(fj);
        assert(next.pos_of(adoptees[j]) == fj);
        assert(next.has_id(adoptees[j]));
        if orig.has_id(adoptees[j]) {
            let w = choose|w: int|
                0 <= w < orig.nodes@.len() && orig.nodes@[w].id == adoptees[j];
            assert(orig.wf_node_at(w));
            assert(orig.nodes@[w].id <= orig.spec_id_count());
            assert(frag.nodes@[q].id > orig.spec_id_count());
        }
    }
    // a held identifier was either held before or freshly drawn
    assert forall|id: u64|
        #[trigger] next.has_id(id) implies orig.has_id(id) || id > orig.spec_id_count() by {
        let w = choose|w: int| 0 <= w < fn_.len() && fn_[w].id == id;
        if w <= anchor {
            assert(spec_host_adjusted(orig, fn_, next.indexes@, w, 0, p, newpchilds, sp, tl));
            assert(orig.nodes@[w].id == id);
        } else if w < anchor + 1 + k {
            assert(spec_frag_adjusted(
                frag,
                fn_,
                next.indexes@,
                w,
                anchor,
                frag_root_id,
                node_id,
                sp,
                commaoff,
                newlen,
                orig.spec_base(),
            ));
            assert(frag.nodes@[w - anchor].id == id);
        } else {
            assert(spec_host_adjusted(orig, fn_, next.indexes@, w, k, p, newpchilds, sp, tl));
            assert(orig.nodes@[w - k].id == id);
        }
    }
    // every pre-existing node survives with its offsets moved
    assert forall|id: u64| #[trigger] orig.has_id(id) implies next.has_id(id) && ({
        let n0 = orig.node_of(id);
        let n1 = next.node_of(id);
        let delim = n0.kind == Kind::Node || n0.kind == Kind::Array || n0.kind == Kind::String;
        &&& n1.kind == n0.kind
        &&& n1.root == n0.root
        &&& n1.opened == n0.opened
        &&& n1.parent == n0.parent
        &&& (id != node_id ==> n1.childs@ == n0.childs@)
        &&& n1.key[0] == spec_ins_k0(n0.key[0] as int, sp, tl)
        &&& n1.key[1] == spec_ins_k1(n0.key[0] as int, n0.key[1] as int, sp, tl)
        &&& n1.value[0] == spec_ins_v0(n0.value[0] as int, sp, tl, id == node_id)
        &&& n1.value[1] == spec_ins_v1(
            n0.value[0] as int,
            n0.value[1] as int,
            sp,
            tl,
            id == node_id,
            delim,
        )
        &&& ((n0.key[1] <= sp || n0.key[0] >= sp) ==> next.buffer().subrange(
            n1.key[0] as int,
            n1.key[1] as int,
        ) == orig.buffer().subrange(n0.key[0] as int, n0.key[1] as int))
        &&& ((id != node_id && (n0.value[1] < sp || n0.value[0] >= sp))
            ==> next.buffer().subrange(n1.value[0] as int, n1.value[1] as int)
            == orig.buffer().subrange(n0.value[0] as int, n0.value[1] as int))
    }) by {
        orig.lemma_has_id_find(id);
        let t = orig.pos_of(id);
        let ft = if t <= anchor {
            t
        } else {
            t + k
        };
        if t <= anchor {
            assert(spec_host_adjusted(orig, fn_, next.indexes@, ft, 0, p, newpchilds, sp, tl));
        } else {
            assert(spec_host_adjusted(orig, fn_, next.indexes@, ft, k, p, newpchilds, sp, tl));
        }
        assert(fn_[ft].id == id);
        next.lemma_pos_of_id(ft);
        assert(next.pos_of(id) == ft);
        assert(next.node_of(id) == fn_[ft]);
        assert(orig.node_of(id) == orig.nodes@[t]);
        assert((t == p) == (id == node_id)) by {
            if id == node_id {
                orig.lemma_pos_of_id(p);
            }
            if t == p {
                assert(orig.nodes@[p].id == node_id);
            }
        }
        let n0 = orig.node_of(id);
        assert(orig.wf_node_at(t));
        if n0.key[0] >= sp {
            lemma_splice_keeps_suffix(
                orig.buffer(),
                next.buffer(),
                mid,
                sp,
                n0.key[0] as int,
                n0.key[1] as int,
            );
        } else if n0.key[1] <= sp {
            lemma_splice_keeps_prefix(
                orig.buffer(),
                next.buffer(),
                mid,
                sp,
                n0.key[0] as int,
                n0.key[1] as int,
            );
        }
        if id != node_id {
            if n0.value[0] >= sp {
                lemma_splice_keeps_suffix(
                    orig.buffer(),
                    next.buffer(),
                    mid,
                    sp,
                    n0.value[0] as int,
                    n0.value[1] as int,
                );
            } else if n0.value[1] < sp {
                lemma_splice_keeps_prefix(
                    orig.buffer(),
                    next.buffer(),
                    mid,
                    sp,
                    n0.value[0] as int,
                    n0.value[1] as int,
                );
            }
        }
    }
}


/// The graft realizes the fragment's parsed document: each adoptee is one
/// root child of the fragment arena, all of them in ascending order, with
/// kind kept and ranges moved to the splice point.
#[verifier::rlimit(100)]
proof fn lemma_graft_from_fragment(
    frag: Hson,
    next: Hson,
    fm: Seq<crate::scan::ScanNode>,
    fid0: u64,
    anchor: int,
    frag_root_id: u64,
    node_id: u64,
    adoptees: Seq<u64>,
    apos: Seq<int>,
    sp: int,
    commaoff: int,
    newlen: int,
    k: int,
    s: Seq<char>,
    middle: bool,
    append: bool,
    base: u64,
)
    requires
        frag.wf(),
        frag.node_count() == k + 1,
        k >= 0,
        frag_root_id == frag.nodes@[0].id,
        fid0 >= 1,
        crate::scan::scan_matches(frag.nodes@, fm, fid0, frag.spec_base()),
        fm == crate::scan::spec_parse_result(
            crate::chars::spec_clean(spec_fragment_text(s, middle)),
        )->Some_0,
        commaoff == (if append {
            1int
        } else {
            0int
        }),
        newlen == next.buffer().len(),
        apos.len() == adoptees.len(),
        forall|x: int|
            0 <= x < apos.len() ==> 1 <= #[trigger] apos[x] < frag.node_count() && frag.nodes@[
                apos[x]
            ].id == adoptees[x] && frag.nodes@[apos[x]].parent == frag_root_id,
        forall|x: int, y: int| 0 <= x < y < apos.len() ==> apos[x] < apos[y],
        forall|qq: int|
            1 <= qq < frag.node_count() && frag.nodes@[qq].parent == frag_root_id
                ==> adoptees.contains(#[trigger] frag.nodes@[qq].id),
        0 <= anchor,
        anchor + 1 + k <= next.nodes@.len(),
        forall|j: int|
            anchor + 1 <= j < anchor + 1 + k ==> spec_frag_adjusted(
                frag,
                next.nodes@,
                next.indexes@,
                j,
                anchor,
                frag_root_id,
                node_id,
                sp,
                commaoff,
                newlen,
                base,
            ),
        next.ids_unique(),
    ensures
        spec_adoptees_from_fragment(next, s, middle, append, sp, adoptees, apos),
{
    // a fragment node's parent is the fragment root exactly when its
    // abstract parent position is the root's
    assert(frag_root_id == fid0 + 1) by {
        assert(crate::scan::scan_node_matches(
            frag.nodes@[0],
            fm[0],
            fid0,
            frag.spec_base(),
            0,
        ));
    }
    assert forall|q: int|
        1 <= q < frag.node_count() implies (frag.nodes@[q].parent == frag_root_id) == (
    fm[q].parentpos == 0) by {
        assert(crate::scan::scan_node_matches(
            frag.nodes@[q],
            fm[q],
            fid0,
            frag.spec_base(),
            q,
        ));
    }
    assert forall|j: int|
        0 <= j < apos.len() implies 1 <= #[trigger] apos[j] < fm.len() && fm[
    apos[j]].parentpos == 0 by {
        assert(frag.nodes@[apos[j]].parent == frag_root_id);
    }
    // completeness: every root child of the fragment arena is adopted
    assert forall|q: int|
        1 <= q < fm.len() && fm[q].parentpos == 0 implies apos.contains(q) by {
        assert(frag.nodes@[q].parent == frag_root_id);
        assert(adoptees.contains(frag.nodes@[q].id));
        let w = choose|w: int| 0 <= w < adoptees.len() && adoptees[w] == frag.nodes@[q].id;
        assert(frag.nodes@[apos[w]].id == frag.nodes@[q].id);
        assert(frag.ids_unique());
        assert(apos[w] == q) by {
            if apos[w] != q {
                assert(frag.nodes@[apos[w]].id != frag.nodes@[q].id);
            }
        }
    }
    // each adoptee's stored node carries the fragment node's kind and its
    // ranges moved to the splice point
    assert forall|j: int| 0 <= j < adoptees.len() implies {
        let m = fm[apos[j]];
        let n1 = next.node_of(#[trigger] adoptees[j]);
        &&& next.pos_of(adoptees[j]) < next.node_count()
        &&& n1.kind == m.kind
        &&& n1.key[0] == spec_frag_coord(m.key0, sp, commaoff, newlen as int)
        &&& n1.key[1] == spec_frag_coord(m.key1, sp, commaoff, newlen as int)
        &&& n1.value[0] == spec_frag_coord(m.val0, sp, commaoff, newlen as int)
        &&& n1.value[1] == spec_frag_coord(m.val1, sp, commaoff, newlen as int)
    } by {
        let q = apos[j];
        let fj = anchor + q;
        assert(spec_frag_adjusted(
            frag,
            next.nodes@,
            next.indexes@,
            fj,
            anchor,
            frag_root_id,
            node_id,
            sp,
            commaoff,
            newlen as int,
            base,
        ));
        assert(next.nodes@[fj].id == adoptees[j]);
        next.lemma_pos_of_id(fj);
        assert(next.pos_of(adoptees[j]) == fj);
        assert(crate::scan::scan_node_matches(
            frag.nodes@[q],
            fm[q],
            fid0,
            frag.spec_base(),
            q,
        ));
    }
}


/// The position of the first occurrence of an identifier in a list from
/// `i` on, or the list's length.
pub open spec fn spec_index_of_id(cs: Seq<u64>, x: u64, i: int) -> int
    decreases cs.len() - i,
{
    if i < 0 || i >= cs.len() {
        cs.len() as int
    } else if cs[i] == x {
        i
    } else {
        spec_index_of_id(cs, x, i + 1)
    }
}

/// What the index position means.
pub proof fn lemma_index_of_id(cs: Seq<u64>, x: u64, i: int)
    requires
        0 <= i <= cs.len(),
    ensures
        i <= spec_index_of_id(cs, x, i) <= cs.len(),
        spec_index_of_id(cs, x, i) < cs.len() ==> cs[spec_index_of_id(cs, x, i)] == x,
        forall|j: int| i <= j < spec_index_of_id(cs, x, i) ==> cs[j] != x,
    decreases cs.len() - i,
{
    if i < cs.len() && cs[i] != x {
        lemma_index_of_id(cs, x, i + 1);
    }
}

/// Finds the position of an identifier in a list.
fn index_of_id(v: &Vec<u64>, x: u64) -> (r: Option<usize>)
    ensures
        match r {
            Some(i) => i as int == spec_index_of_id(v@, x, 0) && i < v@.len() && v@[
                i as int
            ] == x,
            None => spec_index_of_id(v@, x, 0) == v@.len(),
        },
{
    let mut i: usize = 0;
    while i < v.len()
        invariant
            0 <= i <= v@.len(),
            spec_index_of_id(v@, x, 0) == spec_index_of_id(v@, x, i as int),
        decreases v@.len() - i,
    {
        if v[i] == x {
            return Some(i);
        }
        i = i + 1;
    }
    None
}

/// On a duplicate-free list, dropping every occurrence of an element is
/// taking out the one position that holds it.
pub proof fn lemma_without_is_remove_at(cs: Seq<u64>, x: u64, slot: int)
    requires
        0 <= slot < cs.len(),
        cs[slot] == x,
        forall|a: int, b: int| 0 <= a < b < cs.len() ==> cs[a] != cs[b],
    ensures
        spec_without(cs, x) == cs.subrange(0, slot) + cs.subrange(slot + 1, cs.len() as int),
    decreases cs.len(),
{
    reveal_with_fuel(Seq::filter, 2);
    let butlast = cs.drop_last();
    if slot == cs.len() - 1 {
        assert forall|j: int| 0 <= j < butlast.len() implies butlast[j] != x by {
            assert(cs[j] != cs[slot]);
        }
        lemma_filter_keeps_all(butlast, x);
        assert(spec_without(cs, x) =~= cs.subrange(0, slot) + cs.subrange(
            slot + 1,
            cs.len() as int,
        ));
    } else {
        assert(forall|a: int, b: int|
            0 <= a < b < butlast.len() ==> butlast[a] != butlast[b]);
        assert(butlast[slot] == x);
        lemma_without_is_remove_at(butlast, x, slot);
        assert(cs.last() != x) by {
            assert(cs[slot] != cs[cs.len() - 1]);
        }
        assert(spec_without(cs, x) == spec_without(butlast, x).push(cs.last()));
        assert(spec_without(cs, x) =~= cs.subrange(0, slot) + cs.subrange(
            slot + 1,
            cs.len() as int,
        ));
    }
}

/// A list without the element it never holds is itself.
proof fn lemma_filter_keeps_all(cs: Seq<u64>, x: u64)
    requires
        forall|j: int| 0 <= j < cs.len() ==> cs[j] != x,
    ensures
        spec_without(cs, x) == cs,
    decreases cs.len(),
{
    reveal_with_fuel(Seq::filter, 2);
    if cs.len() > 0 {
        assert(forall|j: int| 0 <= j < cs.drop_last().len() ==> cs.drop_last()[j] != x);
        lemma_filter_keeps_all(cs.drop_last(), x);
        assert(spec_without(cs, x) =~= cs);
    }
}



/// A window lying before the splice point reads the same after the splice.
proof fn lemma_splice_keeps_prefix(
    pre: Seq<char>,
    post: Seq<char>,
    mid: Seq<char>,
    sp: int,
    a: int,
    b: int,
)
    requires
        0 <= a <= b <= sp <= pre.len(),
        post == pre.subrange(0, sp) + mid + pre.subrange(sp, pre.len() as int),
    ensures
        post.subrange(a, b) == pre.subrange(a, b),
{
    assert forall|j: int| 0 <= j < b - a implies post.subrange(a, b)[j] == pre.subrange(
        a,
        b,
    )[j] by {
        assert(post[a + j] == pre.subrange(0, sp)[a + j]);
    }
    assert(post.subrange(a, b) =~= pre.subrange(a, b));
}

/// A window lying at or past the splice point reads the same after the
/// splice, moved right by the spliced length.
proof fn lemma_splice_keeps_suffix(
    pre: Seq<char>,
    post: Seq<char>,
    mid: Seq<char>,
    sp: int,
    a: int,
    b: int,
)
    requires
        0 <= sp <= a <= b <= pre.len(),
        post == pre.subrange(0, sp) + mid + pre.subrange(sp, pre.len() as int),
    ensures
        post.subrange(a + mid.len(), b + mid.len()) == pre.subrange(a, b),
{
    let tl = mid.len() as int;
    assert forall|j: int|
        0 <= j < b - a implies post.subrange(a + tl, b + tl)[j] == pre.subrange(a, b)[j] by {
        assert(post[a + tl + j] == pre.subrange(sp, pre.len() as int)[a + j - sp]);
    }
    assert(post.subrange(a + tl, b + tl) =~= pre.subrange(a, b));
}

/// A window lying before the cut span reads the same after the cut.
proof fn lemma_cut_keeps_prefix(pre: Seq<char>, post: Seq<char>, ca: int, cb: int, a: int, b: int)
    requires
        0 <= a <= b <= ca <= cb <= pre.len(),
        post == pre.subrange(0, ca) + pre.subrange(cb, pre.len() as int),
    ensures
        post.subrange(a, b) == pre.subrange(a, b),
{
    assert forall|j: int| 0 <= j < b - a implies post.subrange(a, b)[j] == pre.subrange(
        a,
        b,
    )[j] by {
        assert(post[a + j] == pre.subrange(0, ca)[a + j]);
    }
    assert(post.subrange(a, b) =~= pre.subrange(a, b));
}

/// A window lying at or past the cut span reads the same after the cut,
/// moved left by the cut length.
proof fn lemma_cut_keeps_suffix(pre: Seq<char>, post: Seq<char>, ca: int, cb: int, a: int, b: int)
    requires
        0 <= ca <= cb <= a <= b <= pre.len(),
        post == pre.subrange(0, ca) + pre.subrange(cb, pre.len() as int),
    ensures
        post.subrange(a - (cb - ca), b - (cb - ca)) == pre.subrange(a, b),
{
    let e = cb - ca;
    assert forall|j: int|
        0 <= j < b - a implies post.subrange(a - e, b - e)[j] == pre.subrange(a, b)[j] by {
        assert(post[a - e + j] == pre.subrange(cb, pre.len() as int)[a + j - cb]);
    }
    assert(post.subrange(a - e, b - e) =~= pre.subrange(a, b));
}


} // verus!
